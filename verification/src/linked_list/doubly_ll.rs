use vstd::prelude::*;
use vstd::std_specs::cmp::PartialEqSpec;
use crate::linked_list::error::ListError;
use crate::linked_list::model::{
    has_match, is_find_result, is_first_match, is_removal_target, matches_at, values_of,
};

verus! {

/// One cell of the list. The relations to its neighbours are slots of the
/// list's arena.
struct Node<'a, T> {
    data: &'a T,
    next: Option<usize>,
    prev: Option<usize>,
}

/// A doubly linked list over borrowed values.
///
/// The nodes live in an arena and name their neighbours by slot, so that every
/// node can be reached from `head` by `next` and from `tail` by `prev`. Slots of
/// deleted nodes are kept in `free` and taken again by later insertions.
///
/// A list made by `new` is well formed, and every operation keeps it so.
pub struct DoublyLinkedList<'a, T> {
    nodes: Vec<Node<'a, T>>,
    head: Option<usize>,
    tail: Option<usize>,
    free: Vec<usize>,
    chain: Ghost<Seq<usize>>,
}

/// The successor that position `i` of `chain` should name.
spec fn successor(chain: Seq<usize>, i: int) -> Option<usize> {
    if 0 <= i + 1 < chain.len() {
        Some(chain[i + 1])
    } else {
        None
    }
}

/// The predecessor that position `i` of `chain` should name.
spec fn predecessor(chain: Seq<usize>, i: int) -> Option<usize> {
    if 0 < i <= chain.len() {
        Some(chain[i - 1])
    } else {
        None
    }
}

/// `chain` lists slots of `nodes` whose `next` and `prev` relations tie them
/// together in that order, from `head` to `tail`.
#[verifier::opaque]
spec fn linked<T>(
    nodes: Seq<Node<T>>,
    head: Option<usize>,
    tail: Option<usize>,
    chain: Seq<usize>,
) -> bool {
    &&& chain.no_duplicates()
    &&& head == successor(chain, -1)
    &&& tail == predecessor(chain, chain.len() as int)
    &&& forall|i: int|
        0 <= i < chain.len() ==> {
            &&& (#[trigger] chain[i]) < nodes.len()
            &&& nodes[chain[i] as int].next == successor(chain, i)
            &&& nodes[chain[i] as int].prev == predecessor(chain, i)
        }
}

/// `free` lists slots of the arena that no node of `chain` occupies, each once
/// and with both relations cleared.
#[verifier::opaque]
spec fn released<T>(nodes: Seq<Node<T>>, free: Seq<usize>, chain: Seq<usize>) -> bool {
    &&& free.no_duplicates()
    &&& forall|j: int|
        0 <= j < free.len() ==> {
            &&& (#[trigger] free[j]) < nodes.len()
            &&& !chain.contains(free[j])
            &&& nodes[free[j] as int].next is None
            &&& nodes[free[j] as int].prev is None
        }
}

/// The values that the nodes of `chain` hold, in its order.
spec fn held<T>(nodes: Seq<Node<T>>, chain: Seq<usize>) -> Seq<T> {
    Seq::new(chain.len(), |i: int| *nodes[chain[i] as int].data)
}

impl<'a, T> DoublyLinkedList<'a, T> {
    /// The slots of the nodes, in forward order.
    pub closed spec fn node_ids(&self) -> Seq<usize> {
        self.chain@
    }

    /// The first node, if any.
    pub closed spec fn head_id(&self) -> Option<usize> {
        self.head
    }

    /// The last node, if any.
    pub closed spec fn tail_id(&self) -> Option<usize> {
        self.tail
    }

    /// The node that follows node `id`.
    pub closed spec fn next_of(&self, id: usize) -> Option<usize> {
        self.nodes@[id as int].next
    }

    /// The node that precedes node `id`.
    pub closed spec fn prev_of(&self, id: usize) -> Option<usize> {
        self.nodes@[id as int].prev
    }

    /// The value that node `id` holds.
    pub closed spec fn value_of(&self, id: usize) -> T {
        *self.nodes@[id as int].data
    }

    /// The values of the list, from head to tail.
    pub open spec fn view(&self) -> Seq<T> {
        Seq::new(self.node_ids().len(), |i: int| self.value_of(self.node_ids()[i]))
    }

    /// The representation is sound: the relations of the nodes tie them into
    /// one chain from `head` to `tail` and back, released slots are apart from
    /// it, and the length fits the index type.
    pub closed spec fn well_formed(&self) -> bool {
        &&& linked(self.nodes@, self.head, self.tail, self.chain@)
        &&& released(self.nodes@, self.free@, self.chain@)
        &&& self.chain@.len() <= u32::MAX
    }

    /// The view is what the nodes of the chain hold.
    proof fn lemma_view_is_held(&self)
        ensures
            self@ == held(self.nodes@, self.chain@),
    {
        assert(self@ =~= held(self.nodes@, self.chain@));
    }

    /// What a sound list says of the node at position `i`.
    proof fn lemma_at(&self, i: int)
        requires
            self.well_formed(),
            0 <= i < self.chain@.len(),
        ensures
            self.chain@[i] < self.nodes@.len(),
            self.nodes@[self.chain@[i] as int].next == successor(self.chain@, i),
            self.nodes@[self.chain@[i] as int].prev == predecessor(self.chain@, i),
            *self.nodes@[self.chain@[i] as int].data == self@[i],
            i + 1 < self.chain@.len() ==> self.chain@[i + 1] < self.nodes@.len(),
            i > 0 ==> self.chain@[i - 1] < self.nodes@.len(),
            self.head == Some(self.chain@[0]),
            self.tail == Some(self.chain@[self.chain@.len() - 1]),
            !self.free@.contains(self.chain@[i]),
    {
        lemma_linked_at(self.nodes@, self.head, self.tail, self.chain@, i);
        lemma_linked_ends(self.nodes@, self.head, self.tail, self.chain@);
        lemma_released_apart(self.nodes@, self.free@, self.chain@, self.chain@[i]);
    }

    /// What a sound list says of its ends.
    proof fn lemma_bounds(&self)
        requires
            self.well_formed(),
        ensures
            self.chain@.no_duplicates(),
            self.chain@.len() == self@.len(),
            self.head == successor(self.chain@, -1),
            self.tail == predecessor(self.chain@, self.chain@.len() as int),
            self.head is Some ==> self.head->0 < self.nodes@.len(),
            self.tail is Some ==> self.tail->0 < self.nodes@.len(),
    {
        lemma_linked_ends(self.nodes@, self.head, self.tail, self.chain@);
    }

    /// Create a new doubly linked list with no nodes.
    pub fn new() -> (list: Self)
        ensures
            list.well_formed(),
            list@ == Seq::<T>::empty(),
            list.node_ids() == Seq::<usize>::empty(),
    {
        let list = DoublyLinkedList {
            nodes: Vec::new(),
            head: None,
            tail: None,
            free: Vec::new(),
            chain: Ghost(Seq::empty()),
        };
        proof {
            reveal(linked);
            reveal(released);
        }
        list
    }

    /// Places `node` in a slot that neither the chain nor the free list holds
    /// afterwards, and leaves every other slot as it was.
    fn acquire(&mut self, node: Node<'a, T>) -> (id: usize)
        requires
            old(self).well_formed(),
        ensures
            final(self).head == old(self).head,
            final(self).tail == old(self).tail,
            final(self).chain == old(self).chain,
            released(final(self).nodes@, final(self).free@, final(self).chain@),
            id < final(self).nodes@.len(),
            old(self).nodes@.len() <= final(self).nodes@.len(),
            final(self).nodes@[id as int] == node,
            !final(self).chain@.contains(id),
            !final(self).free@.contains(id),
            forall|k: int|
                0 <= k < old(self).nodes@.len() && k != id ==> final(self).nodes@[k] == old(
                    self,
                ).nodes@[k],
    {
        proof {
            if self.free@.len() > 0 {
                lemma_released_pop(self.nodes@, self.free@, self.chain@);
            }
        }
        match self.free.pop() {
            Some(id) => {
                self.nodes[id] = node;
                proof {
                    assert(self.free@ =~= old(self).free@.drop_last());
                    assert forall|j: int| 0 <= j < self.free@.len() implies
                        self.nodes@[(#[trigger] self.free@[j]) as int]
                            == old(self).nodes@[self.free@[j] as int] by {
                        assert(self.free@.contains(self.free@[j]));
                        lemma_released_at(old(self).nodes@, self.free@, self.chain@, j);
                    }
                    lemma_released_kept(
                        old(self).nodes@,
                        self.nodes@,
                        self.free@,
                        self.chain@,
                        self.chain@,
                    );
                }
                id
            },
            None => {
                self.nodes.push(node);
                proof {
                    assert forall|i: int| 0 <= i < self.chain@.len() implies self.chain@[i]
                        != old(self).nodes@.len() by {
                        old(self).lemma_at(i);
                    }
                    lemma_released_kept(
                        old(self).nodes@,
                        self.nodes@,
                        self.free@,
                        self.chain@,
                        self.chain@,
                    );
                }
                self.nodes.len() - 1
            },
        }
    }

    /// Ties a new node that holds `data` in at position `pos` of the chain,
    /// between the nodes in the slots `before` and `after`, if any.
    fn link_between(
        &mut self,
        before: Option<usize>,
        after: Option<usize>,
        Ghost(pos): Ghost<int>,
        data: &'a T,
    )
        requires
            old(self).well_formed(),
            old(self)@.len() < u32::MAX,
            0 <= pos <= old(self).chain@.len(),
            before == predecessor(old(self).chain@, pos),
            after == successor(old(self).chain@, pos - 1),
        ensures
            final(self).well_formed(),
            final(self)@ == old(self)@.insert(pos, *data),
            final(self).node_ids().remove(pos) == old(self).node_ids(),
            final(self).node_ids().len() == old(self).node_ids().len() + 1,
    {
        proof {
            self.lemma_bounds();
            if pos > 0 {
                self.lemma_at(pos - 1);
            }
            if pos < self.chain@.len() {
                self.lemma_at(pos);
            }
        }
        let id = self.acquire(Node { data, next: after, prev: before });
        let ghost acquired = self.nodes@;
        match before {
            Some(p) => {
                self.nodes[p].next = Some(id);
            },
            None => {
                self.head = Some(id);
            },
        }
        match after {
            Some(s) => {
                self.nodes[s].prev = Some(id);
            },
            None => {
                self.tail = Some(id);
            },
        }
        proof {
            let chain = old(self).chain@;
            let grown = chain.insert(pos, id);
            self.chain@ = grown;
            lemma_chain_insert(chain, pos, id);
            assert forall|i: int| 0 <= i < chain.len() implies {
                &&& (#[trigger] self.nodes@[chain[i] as int]).next == (if i == pos - 1 {
                    Some(id)
                } else {
                    old(self).nodes@[chain[i] as int].next
                })
                &&& self.nodes@[chain[i] as int].prev == (if i == pos {
                    Some(id)
                } else {
                    old(self).nodes@[chain[i] as int].prev
                })
                &&& self.nodes@[chain[i] as int].data == old(self).nodes@[chain[i] as int].data
            } by {
                old(self).lemma_at(i);
                assert(chain.contains(chain[i]));
            }
            lemma_linked_insert(
                old(self).nodes@,
                self.nodes@,
                (old(self).head, old(self).tail),
                (self.head, self.tail),
                chain,
                pos,
                id,
            );
            assert forall|j: int| 0 <= j < self.free@.len() implies
                self.nodes@[(#[trigger] self.free@[j]) as int] == acquired[self.free@[j] as int] by {
                assert(self.free@.contains(self.free@[j]));
                lemma_released_at(acquired, self.free@, chain, j);
                if pos > 0 {
                    lemma_released_apart(acquired, self.free@, chain, chain[pos - 1]);
                }
                if pos < chain.len() {
                    lemma_released_apart(acquired, self.free@, chain, chain[pos]);
                }
            }
            lemma_released_kept(acquired, self.nodes@, self.free@, chain, grown);
            lemma_held_insert(old(self).nodes@, self.nodes@, chain, pos, id);
            old(self).lemma_view_is_held();
            self.lemma_view_is_held();
        }
    }

    /// Push a new node to the front of the list: it becomes the head, and the
    /// old head, if any, follows it.
    pub fn push_front(&mut self, data: &'a T)
        requires
            old(self).well_formed(),
            old(self)@.len() < u32::MAX,
        ensures
            final(self).well_formed(),
            final(self)@ == seq![*data] + old(self)@,
            final(self).node_ids().drop_first() == old(self).node_ids(),
    {
        proof {
            self.lemma_bounds();
        }
        self.link_between(None, self.head, Ghost(0), data);
        proof {
            assert(old(self)@.insert(0, *data) =~= seq![*data] + old(self)@);
            assert(self.node_ids().remove(0) =~= self.node_ids().drop_first());
        }
    }

    /// Push a new node to the back of the list: it becomes the tail, and
    /// follows the old tail, if any.
    pub fn push_back(&mut self, data: &'a T)
        requires
            old(self).well_formed(),
            old(self)@.len() < u32::MAX,
        ensures
            final(self).well_formed(),
            final(self)@ == old(self)@.push(*data),
            final(self).node_ids().drop_last() == old(self).node_ids(),
    {
        proof {
            self.lemma_bounds();
        }
        self.link_between(self.tail, None, Ghost(self.chain@.len() as int), data);
        proof {
            let end = old(self)@.len() as int;
            assert(old(self)@.insert(end, *data) =~= old(self)@.push(*data));
            assert(self.node_ids().remove(end) =~= self.node_ids().drop_last());
        }
    }

    /// Insert a node holding `data` right behind the first node whose value
    /// equals `node`. Hands back the index of that first node.
    pub fn push_after_node(&mut self, node: &T, data: &'a T) -> (result: Result<u32, ListError>) where
        T: PartialEq,
        requires
            old(self).well_formed(),
            old(self)@.len() < u32::MAX,
        ensures
            final(self).well_formed(),
            match result {
                Ok(index) => {
                    &&& index < old(self)@.len()
                    &&& final(self)@ == old(self)@.insert(index + 1, *data)
                    &&& final(self).node_ids().remove(index + 1) == old(self).node_ids()
                },
                Err(e) => {
                    &&& *final(self) == *old(self)
                    &&& e == (if old(self)@.len() == 0 {
                        ListError::Empty
                    } else {
                        ListError::NotFound
                    })
                },
            },
            T::obeys_eq_spec() ==> match result {
                Ok(index) => is_first_match(old(self)@, *node, index as int),
                Err(_) => !has_match(old(self)@, *node),
            },
    {
        proof {
            self.lemma_bounds();
        }
        if self.head.is_none() {
            return Err(ListError::Empty);
        }
        let mut current = self.head;
        let mut index_counter: u32 = 0;
        while current.is_some()
            invariant
                self.well_formed(),
                *self == *old(self),
                0 < self@.len() < u32::MAX,
                index_counter <= self.chain@.len(),
                current == successor(self.chain@, index_counter - 1),
                T::obeys_eq_spec() ==> forall|j: int|
                    0 <= j < index_counter ==> !matches_at(self@, *node, j),
            decreases self.chain@.len() - index_counter,
        {
            let slot = current.unwrap();
            proof {
                self.lemma_bounds();
                self.lemma_at(index_counter as int);
            }
            if *self.nodes[slot].data == *node {
                let after = self.nodes[slot].next;
                self.link_between(Some(slot), after, Ghost(index_counter + 1), data);
                return Ok(index_counter);
            }
            index_counter += 1;
            current = self.nodes[slot].next;
        }
        Err(ListError::NotFound)
    }

    /// Insert a node holding `data` so that it stands at `index`, counted
    /// from zero: at the front for zero, at the back for the length, else
    /// behind the node that stands before `index`. An index past the length
    /// is out of range.
    pub fn insert_at_index(&mut self, index: u32, data: &'a T) -> (result: Result<(), ListError>)
        requires
            old(self).well_formed(),
            old(self)@.len() < u32::MAX,
        ensures
            final(self).well_formed(),
            match result {
                Ok(()) => {
                    &&& index <= old(self)@.len()
                    &&& final(self)@ == old(self)@.insert(index as int, *data)
                    &&& final(self).node_ids().remove(index as int) == old(self).node_ids()
                },
                Err(e) => {
                    &&& e == ListError::OutOfRange
                    &&& index > old(self)@.len()
                    &&& *final(self) == *old(self)
                },
            },
    {
        let length = self.get_length();
        if index > length {
            return Err(ListError::OutOfRange);
        }
        if index == 0 {
            self.push_front(data);
            proof {
                assert(seq![*data] + old(self)@ =~= old(self)@.insert(0, *data));
                assert(self.node_ids().remove(0) =~= self.node_ids().drop_first());
            }
            return Ok(());
        }
        if index == length {
            self.push_back(data);
            proof {
                old(self).lemma_bounds();
                self.lemma_bounds();
                assert(old(self)@.push(*data) =~= old(self)@.insert(index as int, *data));
                assert(self.node_ids().remove(index as int) =~= self.node_ids().drop_last());
            }
            return Ok(());
        }
        proof {
            self.lemma_bounds();
        }
        let mut slot = self.head.unwrap();
        let mut index_counter: u32 = 0;
        while index_counter < index - 1
            invariant
                self.well_formed(),
                *self == *old(self),
                0 < index < self.chain@.len(),
                index_counter <= index - 1,
                slot == self.chain@[index_counter as int],
            decreases index - index_counter,
        {
            proof {
                self.lemma_at(index_counter as int);
            }
            slot = self.nodes[slot].next.unwrap();
            index_counter += 1;
        }
        proof {
            self.lemma_at(index_counter as int);
        }
        let after = self.nodes[slot].next;
        self.link_between(Some(slot), after, Ghost(index as int), data);
        Ok(())
    }

    /// Takes the node in slot `id`, which stands at position `pos` of the
    /// chain, out of the list: its neighbours are tied to each other, its own
    /// relations are cleared and its slot is released.
    fn unlink(&mut self, id: usize, Ghost(pos): Ghost<int>) -> (data: &'a T)
        requires
            old(self).well_formed(),
            0 <= pos < old(self).chain@.len(),
            old(self).chain@[pos] == id,
        ensures
            final(self).well_formed(),
            final(self)@ == old(self)@.remove(pos),
            final(self).node_ids() == old(self).node_ids().remove(pos),
            *data == old(self)@[pos],
    {
        proof {
            self.lemma_bounds();
            self.lemma_at(pos);
        }
        let data = self.nodes[id].data;
        let before = self.nodes[id].prev;
        let after = self.nodes[id].next;
        match before {
            Some(p) => {
                self.nodes[p].next = after;
            },
            None => {
                self.head = after;
            },
        }
        match after {
            Some(s) => {
                self.nodes[s].prev = before;
            },
            None => {
                self.tail = before;
            },
        }
        self.nodes[id].next = None;
        self.nodes[id].prev = None;
        let ghost unlinked = self.nodes@;
        self.free.push(id);
        proof {
            let chain = old(self).chain@;
            let shrunk = chain.remove(pos);
            self.chain@ = shrunk;
            lemma_chain_remove(chain, pos);
            assert forall|i: int| 0 <= i < chain.len() && i != pos implies {
                &&& (#[trigger] self.nodes@[chain[i] as int]).next == (if i == pos - 1 {
                    successor(chain, pos)
                } else {
                    old(self).nodes@[chain[i] as int].next
                })
                &&& self.nodes@[chain[i] as int].prev == (if i == pos + 1 {
                    predecessor(chain, pos)
                } else {
                    old(self).nodes@[chain[i] as int].prev
                })
                &&& self.nodes@[chain[i] as int].data == old(self).nodes@[chain[i] as int].data
            } by {
                old(self).lemma_at(i);
            }
            lemma_linked_remove(
                old(self).nodes@,
                self.nodes@,
                (old(self).head, old(self).tail),
                (self.head, self.tail),
                chain,
                pos,
            );
            assert forall|j: int| 0 <= j < old(self).free@.len() implies
                unlinked[(#[trigger] old(self).free@[j]) as int]
                    == old(self).nodes@[old(self).free@[j] as int] by {
                assert(old(self).free@.contains(old(self).free@[j]));
                lemma_released_at(old(self).nodes@, old(self).free@, chain, j);
                if pos > 0 {
                    old(self).lemma_at(pos - 1);
                }
                if pos + 1 < chain.len() {
                    old(self).lemma_at(pos + 1);
                }
            }
            lemma_released_kept(old(self).nodes@, unlinked, old(self).free@, chain, shrunk);
            lemma_released_push(unlinked, old(self).free@, shrunk, id);
            lemma_held_remove(old(self).nodes@, self.nodes@, chain, pos);
            old(self).lemma_view_is_held();
            self.lemma_view_is_held();
        }
        data
    }

    /// Delete the front node of the list and hand back its value: the head
    /// moves on to its successor, which then has no predecessor. `None`, and
    /// nothing changes, where the list is empty.
    pub fn delete_front(&mut self) -> (removed: Option<&'a T>)
        requires
            old(self).well_formed(),
        ensures
            final(self).well_formed(),
            match removed {
                Some(v) => {
                    &&& old(self)@.len() > 0
                    &&& *v == old(self)@.first()
                    &&& final(self)@ == old(self)@.drop_first()
                    &&& final(self).node_ids() == old(self).node_ids().drop_first()
                },
                None => old(self)@.len() == 0 && *final(self) == *old(self),
            },
    {
        proof {
            self.lemma_bounds();
        }
        match self.head {
            Some(h) => {
                let data = self.unlink(h, Ghost(0));
                proof {
                    assert(old(self)@.remove(0) =~= old(self)@.drop_first());
                    assert(old(self).node_ids().remove(0) =~= old(self).node_ids().drop_first());
                }
                Some(data)
            },
            None => None,
        }
    }

    /// Delete the back node of the list and hand back its value: the tail
    /// moves back to its predecessor, which then has no successor. `None`,
    /// and nothing changes, where the list is empty.
    pub fn delete_back(&mut self) -> (removed: Option<&'a T>)
        requires
            old(self).well_formed(),
        ensures
            final(self).well_formed(),
            match removed {
                Some(v) => {
                    &&& old(self)@.len() > 0
                    &&& *v == old(self)@.last()
                    &&& final(self)@ == old(self)@.drop_last()
                    &&& final(self).node_ids() == old(self).node_ids().drop_last()
                },
                None => old(self)@.len() == 0 && *final(self) == *old(self),
            },
    {
        proof {
            self.lemma_bounds();
        }
        match self.tail {
            Some(t) => {
                let data = self.unlink(t, Ghost(self.chain@.len() - 1));
                proof {
                    let end = old(self)@.len() - 1;
                    assert(old(self)@.remove(end) =~= old(self)@.drop_last());
                    assert(old(self).node_ids().remove(end) =~= old(self).node_ids().drop_last());
                }
                Some(data)
            },
            None => None,
        }
    }

    /// Delete a specific node from the list: the head where it holds a value
    /// equal to `data`, else the tail where it does, else the first node that
    /// does. Hands back the index that the node had.
    pub fn delete_at_node(&mut self, data: &T) -> (result: Result<u32, ListError>) where
        T: PartialEq,
        requires
            old(self).well_formed(),
        ensures
            final(self).well_formed(),
            match result {
                Ok(index) => {
                    &&& index < old(self)@.len()
                    &&& final(self)@ == old(self)@.remove(index as int)
                    &&& final(self).node_ids() == old(self).node_ids().remove(index as int)
                },
                Err(e) => {
                    &&& *final(self) == *old(self)
                    &&& e == (if old(self)@.len() == 0 {
                        ListError::Empty
                    } else {
                        ListError::NotFound
                    })
                },
            },
            T::obeys_eq_spec() ==> match result {
                Ok(index) => is_removal_target(old(self)@, *data, index as int),
                Err(_) => !has_match(old(self)@, *data),
            },
    {
        proof {
            self.lemma_bounds();
        }
        let (head, tail) = match (self.head, self.tail) {
            (Some(h), Some(t)) => (h, t),
            _ => {
                return Err(ListError::Empty);
            },
        };
        proof {
            self.lemma_at(0);
            self.lemma_at(self.chain@.len() - 1);
        }
        if *self.nodes[head].data == *data {
            self.delete_front();
            proof {
                assert(old(self)@.drop_first() =~= old(self)@.remove(0));
                assert(old(self).node_ids().drop_first() =~= old(self).node_ids().remove(0));
            }
            return Ok(0);
        }
        if *self.nodes[tail].data == *data {
            let last = self.get_length() - 1;
            self.delete_back();
            proof {
                assert(old(self)@.drop_last() =~= old(self)@.remove(last as int));
                assert(old(self).node_ids().drop_last() =~= old(self).node_ids().remove(last as int));
            }
            return Ok(last);
        }
        let mut current = self.head;
        let mut index_counter: u32 = 0;
        while current.is_some()
            invariant
                self.well_formed(),
                *self == *old(self),
                index_counter <= self.chain@.len(),
                current == successor(self.chain@, index_counter - 1),
                T::obeys_eq_spec() ==> forall|j: int|
                    0 <= j < index_counter ==> !matches_at(self@, *data, j),
                T::obeys_eq_spec() ==> !matches_at(self@, *data, 0),
                T::obeys_eq_spec() ==> !matches_at(self@, *data, self@.len() - 1),
            decreases self.chain@.len() - index_counter,
        {
            let node = current.unwrap();
            proof {
                self.lemma_bounds();
                self.lemma_at(index_counter as int);
            }
            if *self.nodes[node].data == *data {
                self.unlink(node, Ghost(index_counter as int));
                return Ok(index_counter);
            }
            index_counter += 1;
            current = self.nodes[node].next;
        }
        Err(ListError::NotFound)
    }

    /// Whether the list holds no node.
    pub fn is_empty(&self) -> (empty: bool)
        requires
            self.well_formed(),
        ensures
            empty == (self@.len() == 0),
    {
        proof {
            self.lemma_bounds();
        }
        self.head.is_none()
    }

    /// Get the length (total number of items in the list), counted along the
    /// forward relation.
    pub fn get_length(&self) -> (length: u32)
        requires
            self.well_formed(),
        ensures
            length == self@.len(),
    {
        proof {
            self.lemma_bounds();
        }
        let mut current = self.head;
        let mut counter: u32 = 0;
        while current.is_some()
            invariant
                self.well_formed(),
                counter <= self.chain@.len(),
                current == successor(self.chain@, counter - 1),
            decreases self.chain@.len() - counter,
        {
            let node = current.unwrap();
            proof {
                self.lemma_at(counter as int);
            }
            counter += 1;
            current = self.nodes[node].next;
        }
        counter
    }

    /// Find the first node whose value equals `data` and return its index
    /// from the head: `(true, index)`, or `(false, 0)` where no node has it.
    pub fn find(&self, data: &T) -> (found: (bool, u32)) where T: PartialEq
        requires
            self.well_formed(),
        ensures
            found.0 ==> found.1 < self@.len(),
            !found.0 ==> found.1 == 0,
            T::obeys_eq_spec() ==> is_find_result(self@, *data, found),
    {
        proof {
            self.lemma_bounds();
        }
        let mut current = self.head;
        let mut index_counter: u32 = 0;
        while current.is_some()
            invariant
                self.well_formed(),
                index_counter <= self.chain@.len(),
                current == successor(self.chain@, index_counter - 1),
                T::obeys_eq_spec() ==> forall|j: int|
                    0 <= j < index_counter ==> !matches_at(self@, *data, j),
            decreases self.chain@.len() - index_counter,
        {
            let node = current.unwrap();
            proof {
                self.lemma_bounds();
                self.lemma_at(index_counter as int);
            }
            if *self.nodes[node].data == *data {
                return (true, index_counter);
            }
            index_counter += 1;
            current = self.nodes[node].next;
        }
        (false, 0)
    }

    /// The values of the list in forward order, gathered along the `next`
    /// relation from the head.
    pub fn display(&self) -> (shown: Vec<&'a T>)
        requires
            self.well_formed(),
        ensures
            shown@.len() == self@.len(),
            values_of(shown@) == self@,
    {
        proof {
            self.lemma_bounds();
        }
        let mut shown: Vec<&'a T> = Vec::new();
        let mut current = self.head;
        while current.is_some()
            invariant
                self.well_formed(),
                shown@.len() <= self.chain@.len(),
                current == successor(self.chain@, shown@.len() - 1),
                values_of(shown@) == self@.take(shown@.len() as int),
            decreases self.chain@.len() - shown@.len(),
        {
            let node = current.unwrap();
            proof {
                self.lemma_bounds();
                self.lemma_at(shown@.len() as int);
            }
            shown.push(self.nodes[node].data);
            current = self.nodes[node].next;
        }
        shown
    }

    /// The values of the list in backward order, gathered along the `prev`
    /// relation from the tail.
    pub fn display_backward(&self) -> (shown: Vec<&'a T>)
        requires
            self.well_formed(),
        ensures
            shown@.len() == self@.len(),
            values_of(shown@) == self@.reverse(),
    {
        proof {
            self.lemma_bounds();
        }
        let mut shown: Vec<&'a T> = Vec::new();
        let mut current = self.tail;
        while current.is_some()
            invariant
                self.well_formed(),
                shown@.len() <= self.chain@.len(),
                current == predecessor(self.chain@, self.chain@.len() - shown@.len()),
                values_of(shown@) == self@.reverse().take(shown@.len() as int),
            decreases self.chain@.len() - shown@.len(),
        {
            let node = current.unwrap();
            proof {
                self.lemma_bounds();
                self.lemma_at(self.chain@.len() - 1 - shown@.len());
            }
            shown.push(self.nodes[node].data);
            current = self.nodes[node].prev;
        }
        shown
    }

    /// Get the value of the tail node.
    pub fn get_tail_value(&self) -> (value: Option<&'a T>)
        requires
            self.well_formed(),
        ensures
            match value {
                Some(v) => self@.len() > 0 && *v == self@.last(),
                None => self@.len() == 0,
            },
    {
        proof {
            self.lemma_bounds();
        }
        match self.tail {
            Some(t) => {
                proof {
                    self.lemma_at(self.chain@.len() - 1);
                }
                Some(self.nodes[t].data)
            },
            None => None,
        }
    }

    /// Reverse the list: every node swaps its two relations, and the list
    /// swaps its head and its tail. No node is made or released.
    pub fn reverse(&mut self)
        requires
            old(self).well_formed(),
        ensures
            final(self).well_formed(),
            final(self)@ == old(self)@.reverse(),
            final(self).node_ids() == old(self).node_ids().reverse(),
    {
        proof {
            self.lemma_bounds();
        }
        let old_head = self.head;
        let old_tail = self.tail;
        let mut current = self.head;
        let ghost chain = self.chain@;
        let ghost mut done: int = 0;
        proof {
            assert forall|i: int| 0 <= i < chain.len() implies (#[trigger] chain[i]) < self.nodes@.len() by {
                self.lemma_at(i);
            }
            assert forall|j: int| 0 <= j < self.free@.len() implies (#[trigger] self.free@[j])
                < self.nodes@.len() by {
                lemma_released_at(self.nodes@, self.free@, chain, j);
            }
        }
        while current.is_some()
            invariant
                old(self).well_formed(),
                chain == old(self).chain@,
                self.chain@ == chain,
                self.free == old(self).free,
                self.nodes@.len() == old(self).nodes@.len(),
                0 <= done <= chain.len(),
                current == successor(chain, done - 1),
                chain.no_duplicates(),
                forall|i: int| 0 <= i < chain.len() ==> (#[trigger] chain[i]) < self.nodes@.len(),
                forall|j: int|
                    0 <= j < self.free@.len() ==> {
                        &&& (#[trigger] self.free@[j]) < self.nodes@.len()
                        &&& self.nodes@[self.free@[j] as int] == old(self).nodes@[self.free@[j] as int]
                    },
                forall|i: int|
                    0 <= i < done ==> {
                        &&& (#[trigger] self.nodes@[chain[i] as int]).next == old(
                            self,
                        ).nodes@[chain[i] as int].prev
                        &&& self.nodes@[chain[i] as int].prev == old(self).nodes@[chain[i] as int].next
                        &&& self.nodes@[chain[i] as int].data == old(self).nodes@[chain[i] as int].data
                    },
                forall|i: int|
                    done <= i < chain.len() ==> (#[trigger] self.nodes@[chain[i] as int]) == old(
                        self,
                    ).nodes@[chain[i] as int],
            decreases chain.len() - done,
        {
            let node = current.unwrap();
            proof {
                old(self).lemma_bounds();
                old(self).lemma_at(done);
                assert(self.nodes@[chain[done] as int] == old(self).nodes@[chain[done] as int]);
                assert forall|j: int| 0 <= j < self.free@.len() implies (#[trigger] self.free@[j])
                    != chain[done] by {
                    lemma_released_at(old(self).nodes@, self.free@, chain, j);
                    assert(chain.contains(chain[done]));
                }
            }
            let next = self.nodes[node].next;
            let prev = self.nodes[node].prev;
            self.nodes[node].next = prev;
            self.nodes[node].prev = next;
            current = next;
            proof {
                done = done + 1;
            }
        }
        self.head = old_tail;
        self.tail = old_head;
        proof {
            self.chain@ = chain.reverse();
            lemma_linked_reverse(old(self).nodes@, self.nodes@, old_head, old_tail, chain);
            lemma_released_kept(old(self).nodes@, self.nodes@, self.free@, chain, chain.reverse());
            lemma_held_reverse(old(self).nodes@, self.nodes@, chain);
            old(self).lemma_view_is_held();
            self.lemma_view_is_held();
        }
    }
}

impl<'a, T> DoublyLinkedList<'a, T> {
    /// The nodes met by following the forward relation from `from`, `steps`
    /// of them at most.
    pub open spec fn forward_walk(&self, from: Option<usize>, steps: nat) -> Seq<usize>
        decreases steps,
    {
        if steps == 0 || from is None {
            Seq::empty()
        } else {
            seq![from->0] + self.forward_walk(self.next_of(from->0), (steps - 1) as nat)
        }
    }

    /// The nodes met by following the backward relation from `from`, `steps`
    /// of them at most.
    pub open spec fn backward_walk(&self, from: Option<usize>, steps: nat) -> Seq<usize>
        decreases steps,
    {
        if steps == 0 || from is None {
            Seq::empty()
        } else {
            seq![from->0] + self.backward_walk(self.prev_of(from->0), (steps - 1) as nat)
        }
    }

    /// The list is empty exactly when `head` is unset, and exactly when `tail`
    /// is unset. Otherwise `head` is the first node and has no predecessor,
    /// `tail` is the last node and has no successor, and in a list of one
    /// node they are the same node.
    pub proof fn lemma_ends(&self)
        requires
            self.well_formed(),
        ensures
            self@.len() == self.node_ids().len(),
            self@.len() <= u32::MAX,
            self.head_id() is None <==> self@.len() == 0,
            self.tail_id() is None <==> self@.len() == 0,
            self@.len() > 0 ==> {
                &&& self.head_id() == Some(self.node_ids().first())
                &&& self.tail_id() == Some(self.node_ids().last())
                &&& self.prev_of(self.node_ids().first()) is None
                &&& self.next_of(self.node_ids().last()) is None
            },
            self@.len() == 1 ==> self.head_id() == self.tail_id(),
    {
        self.lemma_bounds();
        if self@.len() > 0 {
            self.lemma_at(0);
            self.lemma_at(self.chain@.len() - 1);
        }
    }

    /// No node stands at two positions of the list.
    pub proof fn lemma_nodes_distinct(&self)
        requires
            self.well_formed(),
        ensures
            self.node_ids().no_duplicates(),
    {
        self.lemma_bounds();
    }

    /// Each node but the last has the node behind it as its successor, and
    /// each node but the first has the node before it as its predecessor.
    pub proof fn lemma_adjacent(&self, i: int)
        requires
            self.well_formed(),
            0 <= i < self@.len(),
        ensures
            self.next_of(self.node_ids()[i]) == (if i + 1 < self@.len() {
                Some(self.node_ids()[i + 1])
            } else {
                None
            }),
            self.prev_of(self.node_ids()[i]) == (if i > 0 {
                Some(self.node_ids()[i - 1])
            } else {
                None
            }),
    {
        self.lemma_at(i);
    }

    /// For two nodes of the list, the first has the second as its successor
    /// if and only if the second has the first as its predecessor.
    pub proof fn lemma_relations_agree(&self, a: usize, b: usize)
        requires
            self.well_formed(),
            self.node_ids().contains(a),
            self.node_ids().contains(b),
        ensures
            self.next_of(a) == Some(b) <==> self.prev_of(b) == Some(a),
    {
        let ids = self.node_ids();
        let i = choose|i: int| 0 <= i < ids.len() && ids[i] == a;
        let j = choose|j: int| 0 <= j < ids.len() && ids[j] == b;
        self.lemma_bounds();
        self.lemma_adjacent(i);
        self.lemma_adjacent(j);
        if self.next_of(a) == Some(b) {
            assert(ids[i + 1] == ids[j]);
        }
        if self.prev_of(b) == Some(a) {
            assert(ids[j - 1] == ids[i]);
        }
    }

    /// What a forward walk meets from position `k` on.
    proof fn lemma_forward_from(&self, k: int, steps: nat)
        requires
            self.well_formed(),
            0 <= k <= self.node_ids().len(),
            steps >= self.node_ids().len() - k,
        ensures
            self.forward_walk(
                if k < self.node_ids().len() {
                    Some(self.node_ids()[k])
                } else {
                    None
                },
                steps,
            ) == self.node_ids().skip(k),
        decreases self.node_ids().len() - k,
    {
        let ids = self.node_ids();
        if k < ids.len() {
            self.lemma_adjacent(k);
            self.lemma_forward_from(k + 1, (steps - 1) as nat);
            assert(ids.skip(k) =~= seq![ids[k]] + ids.skip(k + 1));
        } else {
            assert(ids.skip(k) =~= Seq::<usize>::empty());
        }
    }

    /// What a backward walk meets from position `k` on.
    proof fn lemma_backward_from(&self, k: int, steps: nat)
        requires
            self.well_formed(),
            -1 <= k < self.node_ids().len(),
            steps >= k + 1,
        ensures
            self.backward_walk(
                if k >= 0 {
                    Some(self.node_ids()[k])
                } else {
                    None
                },
                steps,
            ) == self.node_ids().take(k + 1).reverse(),
        decreases k + 1,
    {
        let ids = self.node_ids();
        if k >= 0 {
            self.lemma_adjacent(k);
            self.lemma_backward_from(k - 1, (steps - 1) as nat);
            assert(ids.take(k + 1).reverse() =~= seq![ids[k]] + ids.take(k).reverse());
        } else {
            assert(ids.take(k + 1).reverse() =~= Seq::<usize>::empty());
        }
    }

    /// Forward traversal from `head` along `next` meets every node once, in
    /// the order of the list, and then ends: more steps meet no more nodes.
    pub proof fn lemma_forward_traversal(&self, steps: nat)
        requires
            self.well_formed(),
            steps >= self@.len(),
        ensures
            self.forward_walk(self.head_id(), steps) == self.node_ids(),
            self.forward_walk(self.head_id(), steps).len() == self@.len(),
            self.forward_walk(self.head_id(), steps).map_values(|id: usize| self.value_of(id))
                == self@,
    {
        self.lemma_bounds();
        self.lemma_forward_from(0, steps);
        assert(self.node_ids().skip(0) =~= self.node_ids());
        assert(self.node_ids().map_values(|id: usize| self.value_of(id)) =~= self@);
    }

    /// Backward traversal from `tail` along `prev` meets the same nodes in
    /// the reverse order, and then ends.
    pub proof fn lemma_backward_traversal(&self, steps: nat)
        requires
            self.well_formed(),
            steps >= self@.len(),
        ensures
            self.backward_walk(self.tail_id(), steps) == self.node_ids().reverse(),
            self.backward_walk(self.tail_id(), steps).len() == self@.len(),
            self.backward_walk(self.tail_id(), steps).map_values(|id: usize| self.value_of(id))
                == self@.reverse(),
    {
        let ids = self.node_ids();
        self.lemma_bounds();
        self.lemma_backward_from(ids.len() - 1, steps);
        assert(ids.take(ids.len() as int) =~= ids);
        assert(ids.reverse().map_values(|id: usize| self.value_of(id)) =~= self@.reverse());
    }

    /// `push_front` followed by `delete_front` restores the list: `pushed`
    /// is what `push_front(value)` makes of `list`, and `restored` what
    /// `delete_front` makes of `pushed`. The restored list has the nodes of
    /// the first, with their values and relations, and so the same head,
    /// tail and length.
    pub proof fn lemma_push_front_then_delete_front(list: &Self, pushed: &Self, restored: &Self, value: T)
        requires
            list.well_formed(),
            pushed.well_formed(),
            pushed@ == seq![value] + list@,
            pushed.node_ids().drop_first() == list.node_ids(),
            restored.well_formed(),
            restored@ == pushed@.drop_first(),
            restored.node_ids() == pushed.node_ids().drop_first(),
        ensures
            restored@ == list@,
            restored@.len() == list@.len(),
            restored.node_ids() == list.node_ids(),
            restored.head_id() == list.head_id(),
            restored.tail_id() == list.tail_id(),
            forall|i: int|
                0 <= i < list@.len() ==> {
                    let id = #[trigger] list.node_ids()[i];
                    &&& restored.next_of(id) == list.next_of(id)
                    &&& restored.prev_of(id) == list.prev_of(id)
                    &&& restored.value_of(id) == list.value_of(id)
                },
    {
        assert(restored@ =~= list@);
        list.lemma_ends();
        restored.lemma_ends();
        assert forall|i: int| 0 <= i < list@.len() implies {
            let id = #[trigger] list.node_ids()[i];
            &&& restored.next_of(id) == list.next_of(id)
            &&& restored.prev_of(id) == list.prev_of(id)
            &&& restored.value_of(id) == list.value_of(id)
        } by {
            list.lemma_adjacent(i);
            restored.lemma_adjacent(i);
            assert(restored@[i] == list@[i]);
        }
    }

    /// Reversing twice gives the first list back: `once` is what `reverse`
    /// makes of `list`, and `twice` what it makes of `once`.
    pub proof fn lemma_reverse_twice(list: &Self, once: &Self, twice: &Self)
        requires
            once@ == list@.reverse(),
            once.node_ids() == list.node_ids().reverse(),
            twice@ == once@.reverse(),
            twice.node_ids() == once.node_ids().reverse(),
        ensures
            twice@ == list@,
            twice.node_ids() == list.node_ids(),
    {
        assert(list@.reverse().reverse() =~= list@);
        assert(list.node_ids().reverse().reverse() =~= list.node_ids());
    }
}

/// The pushes of the demonstration: 10, 20, 30 and 40 to the front, then 50,
/// 60, 70 and 80 to the back.
fn run_pushes() -> (list: DoublyLinkedList<'static, i32>)
    ensures
        list.well_formed(),
        list@ == seq![40i32, 30i32, 20i32, 10i32, 50i32, 60i32, 70i32, 80i32],
{
    let mut doubly_ll = DoublyLinkedList::new();
    doubly_ll.push_front(&10);
    doubly_ll.push_front(&20);
    doubly_ll.push_front(&30);
    doubly_ll.push_front(&40);
    assert(doubly_ll@ =~= seq![40i32, 30i32, 20i32, 10i32]);
    doubly_ll.push_back(&50);
    doubly_ll.push_back(&60);
    doubly_ll.push_back(&70);
    doubly_ll.push_back(&80);
    assert(doubly_ll@ =~= seq![40i32, 30i32, 20i32, 10i32, 50i32, 60i32, 70i32, 80i32]);
    doubly_ll
}

/// The insertions of the demonstration: 969 behind 50, then 1000 behind 969.
fn run_insertions(doubly_ll: &mut DoublyLinkedList<'static, i32>)
    requires
        old(doubly_ll).well_formed(),
        old(doubly_ll)@ == seq![40i32, 30i32, 20i32, 10i32, 50i32, 60i32, 70i32, 80i32],
    ensures
        final(doubly_ll).well_formed(),
        final(doubly_ll)@ == seq![
            40i32,
            30i32,
            20i32,
            10i32,
            50i32,
            969i32,
            1000i32,
            60i32,
            70i32,
            80i32,
        ],
{
    assert(matches_at(doubly_ll@, 50i32, 4));
    let first = doubly_ll.push_after_node(&50, &969);
    assert(first == Ok::<u32, ListError>(4));
    assert(doubly_ll@ =~= seq![40i32, 30i32, 20i32, 10i32, 50i32, 969i32, 60i32, 70i32, 80i32]);
    assert(matches_at(doubly_ll@, 969i32, 5));
    let second = doubly_ll.push_after_node(&969, &1000);
    assert(second == Ok::<u32, ListError>(5));
    assert(doubly_ll@ =~= seq![
        40i32,
        30i32,
        20i32,
        10i32,
        50i32,
        969i32,
        1000i32,
        60i32,
        70i32,
        80i32,
    ]);
}

/// The deletions at the ends of the demonstration: two at the front, one at
/// the back.
fn run_end_deletions(doubly_ll: &mut DoublyLinkedList<'static, i32>)
    requires
        old(doubly_ll).well_formed(),
        old(doubly_ll)@ == seq![
            40i32,
            30i32,
            20i32,
            10i32,
            50i32,
            969i32,
            1000i32,
            60i32,
            70i32,
            80i32,
        ],
    ensures
        final(doubly_ll).well_formed(),
        final(doubly_ll)@ == seq![20i32, 10i32, 50i32, 969i32, 1000i32, 60i32, 70i32],
{
    doubly_ll.delete_front();
    doubly_ll.delete_front();
    doubly_ll.delete_back();
    assert(doubly_ll@ =~= seq![20i32, 10i32, 50i32, 969i32, 1000i32, 60i32, 70i32]);
}

/// The deletions by value of the demonstration: 60, then 10.
fn run_value_deletions(doubly_ll: &mut DoublyLinkedList<'static, i32>)
    requires
        old(doubly_ll).well_formed(),
        old(doubly_ll)@ == seq![20i32, 10i32, 50i32, 969i32, 1000i32, 60i32, 70i32],
    ensures
        final(doubly_ll).well_formed(),
        final(doubly_ll)@ == seq![20i32, 50i32, 969i32, 1000i32, 70i32],
{
    assert(matches_at(doubly_ll@, 60i32, 5));
    let first = doubly_ll.delete_at_node(&60);
    assert(first == Ok::<u32, ListError>(5));
    assert(doubly_ll@ =~= seq![20i32, 10i32, 50i32, 969i32, 1000i32, 70i32]);
    assert(matches_at(doubly_ll@, 10i32, 1));
    let second = doubly_ll.delete_at_node(&10);
    assert(second == Ok::<u32, ListError>(1));
    assert(doubly_ll@ =~= seq![20i32, 50i32, 969i32, 1000i32, 70i32]);
}

/// Runs the demonstration on a list of numbers and hands back the list that
/// it ends with: four pushes to the front, four to the back, two insertions
/// behind a value, two deletions at the front, one at the back, two by value,
/// and a reversal.
pub fn run() -> (list: DoublyLinkedList<'static, i32>)
    ensures
        list.well_formed(),
        list@ == seq![70i32, 1000i32, 969i32, 50i32, 20i32],
{
    let mut doubly_ll = run_pushes();
    run_insertions(&mut doubly_ll);
    run_end_deletions(&mut doubly_ll);
    run_value_deletions(&mut doubly_ll);
    doubly_ll.reverse();
    assert(doubly_ll@ =~= seq![70i32, 1000i32, 969i32, 50i32, 20i32]);
    doubly_ll
}

/// What a linked chain says of its ends.
proof fn lemma_linked_ends<T>(
    nodes: Seq<Node<T>>,
    head: Option<usize>,
    tail: Option<usize>,
    chain: Seq<usize>,
)
    requires
        linked(nodes, head, tail, chain),
    ensures
        chain.no_duplicates(),
        head == successor(chain, -1),
        tail == predecessor(chain, chain.len() as int),
        head is Some ==> head->0 < nodes.len(),
        tail is Some ==> tail->0 < nodes.len(),
{
    reveal(linked);
    if chain.len() > 0 {
        assert(chain[0] < nodes.len());
        assert(chain[chain.len() - 1] < nodes.len());
    }
}

/// What a linked chain says of the node at position `i`.
proof fn lemma_linked_at<T>(
    nodes: Seq<Node<T>>,
    head: Option<usize>,
    tail: Option<usize>,
    chain: Seq<usize>,
    i: int,
)
    requires
        linked(nodes, head, tail, chain),
        0 <= i < chain.len(),
    ensures
        chain[i] < nodes.len(),
        nodes[chain[i] as int].next == successor(chain, i),
        nodes[chain[i] as int].prev == predecessor(chain, i),
        i + 1 < chain.len() ==> chain[i + 1] < nodes.len(),
        i > 0 ==> chain[i - 1] < nodes.len(),
{
    reveal(linked);
    if i + 1 < chain.len() {
        assert(chain[i + 1] < nodes.len());
    }
    if i > 0 {
        assert(chain[i - 1] < nodes.len());
    }
}

/// What `chain` looks like once `id` has been put in at position `pos`.
proof fn lemma_chain_insert(chain: Seq<usize>, pos: int, id: usize)
    requires
        0 <= pos <= chain.len(),
        chain.no_duplicates(),
        !chain.contains(id),
    ensures
        chain.insert(pos, id).len() == chain.len() + 1,
        chain.insert(pos, id).no_duplicates(),
        chain.insert(pos, id).remove(pos) == chain,
        chain.insert(pos, id)[pos] == id,
        forall|i: int| 0 <= i < pos ==> chain.insert(pos, id)[i] == chain[i],
        forall|i: int| pos < i <= chain.len() ==> chain.insert(pos, id)[i] == chain[i - 1],
        forall|x: usize| chain.insert(pos, id).contains(x) <==> (x == id || chain.contains(x)),
{
    let grown = chain.insert(pos, id);
    assert forall|i: int, j: int| 0 <= i < grown.len() && 0 <= j < grown.len() && i != j implies grown[i]
        != grown[j] by {
        let a = if i < pos { i } else { i - 1 };
        let b = if j < pos { j } else { j - 1 };
        if i != pos && j != pos {
            assert(grown[i] == chain[a] && grown[j] == chain[b]);
        } else if i == pos {
            assert(chain.contains(chain[b]));
        } else {
            assert(chain.contains(chain[a]));
        }
    }
    assert(grown.remove(pos) =~= chain);
    assert forall|x: usize| grown.contains(x) <==> (x == id || chain.contains(x)) by {
        if grown.contains(x) {
            let i = choose|i: int| 0 <= i < grown.len() && grown[i] == x;
            if i < pos {
                assert(chain[i] == x);
            } else if i > pos {
                assert(chain[i - 1] == x);
            }
        }
        if chain.contains(x) {
            let i = choose|i: int| 0 <= i < chain.len() && chain[i] == x;
            if i < pos {
                assert(grown[i] == x);
            } else {
                assert(grown[i + 1] == x);
            }
        }
        if x == id {
            assert(grown[pos] == x);
        }
    }
}

/// What `chain` looks like once its position `pos` has been taken out.
proof fn lemma_chain_remove(chain: Seq<usize>, pos: int)
    requires
        0 <= pos < chain.len(),
        chain.no_duplicates(),
    ensures
        chain.remove(pos).len() == chain.len() - 1,
        chain.remove(pos).no_duplicates(),
        forall|i: int| 0 <= i < pos ==> chain.remove(pos)[i] == chain[i],
        forall|i: int| pos <= i < chain.len() - 1 ==> chain.remove(pos)[i] == chain[i + 1],
        forall|x: usize| chain.remove(pos).contains(x) <==> (x != chain[pos] && chain.contains(x)),
{
    let shrunk = chain.remove(pos);
    assert forall|x: usize| shrunk.contains(x) <==> (x != chain[pos] && chain.contains(x)) by {
        if shrunk.contains(x) {
            let i = choose|i: int| 0 <= i < shrunk.len() && shrunk[i] == x;
            if i < pos {
                assert(chain[i] == x);
            } else {
                assert(chain[i + 1] == x);
            }
        }
        if x != chain[pos] && chain.contains(x) {
            let i = choose|i: int| 0 <= i < chain.len() && chain[i] == x;
            if i < pos {
                assert(shrunk[i] == x);
            } else {
                assert(shrunk[i - 1] == x);
            }
        }
    }
}

/// A chain stays linked when a new node is tied in at position `pos`: the
/// new node names its two neighbours, they name it, and no other relation
/// of a node of the chain changes.
proof fn lemma_linked_insert<T>(
    before: Seq<Node<T>>,
    after: Seq<Node<T>>,
    ends_before: (Option<usize>, Option<usize>),
    ends_after: (Option<usize>, Option<usize>),
    chain: Seq<usize>,
    pos: int,
    id: usize,
)
    requires
        linked(before, ends_before.0, ends_before.1, chain),
        0 <= pos <= chain.len(),
        !chain.contains(id),
        id < after.len(),
        before.len() <= after.len(),
        after[id as int].prev == predecessor(chain, pos),
        after[id as int].next == successor(chain, pos - 1),
        ends_after.0 == (if pos == 0 {
            Some(id)
        } else {
            ends_before.0
        }),
        ends_after.1 == (if pos == chain.len() {
            Some(id)
        } else {
            ends_before.1
        }),
        forall|i: int|
            0 <= i < chain.len() ==> {
                &&& (#[trigger] after[chain[i] as int]).next == (if i == pos - 1 {
                    Some(id)
                } else {
                    before[chain[i] as int].next
                })
                &&& after[chain[i] as int].prev == (if i == pos {
                    Some(id)
                } else {
                    before[chain[i] as int].prev
                })
            },
    ensures
        linked(after, ends_after.0, ends_after.1, chain.insert(pos, id)),
{
    lemma_linked_ends(before, ends_before.0, ends_before.1, chain);
    lemma_chain_insert(chain, pos, id);
    lemma_linked_grown(before, after, ends_before, ends_after, chain, chain.insert(pos, id), pos, id);
}

/// The same, for a chain `grown` that is known position by position.
proof fn lemma_linked_grown<T>(
    before: Seq<Node<T>>,
    after: Seq<Node<T>>,
    ends_before: (Option<usize>, Option<usize>),
    ends_after: (Option<usize>, Option<usize>),
    chain: Seq<usize>,
    grown: Seq<usize>,
    pos: int,
    id: usize,
)
    requires
        linked(before, ends_before.0, ends_before.1, chain),
        0 <= pos <= chain.len(),
        grown.len() == chain.len() + 1,
        grown.no_duplicates(),
        grown[pos] == id,
        forall|i: int| 0 <= i < pos ==> grown[i] == chain[i],
        forall|i: int| pos < i <= chain.len() ==> grown[i] == chain[i - 1],
        id < after.len(),
        before.len() <= after.len(),
        after[id as int].prev == predecessor(chain, pos),
        after[id as int].next == successor(chain, pos - 1),
        ends_after.0 == (if pos == 0 {
            Some(id)
        } else {
            ends_before.0
        }),
        ends_after.1 == (if pos == chain.len() {
            Some(id)
        } else {
            ends_before.1
        }),
        forall|i: int|
            0 <= i < chain.len() ==> {
                &&& (#[trigger] after[chain[i] as int]).next == (if i == pos - 1 {
                    Some(id)
                } else {
                    before[chain[i] as int].next
                })
                &&& after[chain[i] as int].prev == (if i == pos {
                    Some(id)
                } else {
                    before[chain[i] as int].prev
                })
            },
    ensures
        linked(after, ends_after.0, ends_after.1, grown),
{
    lemma_linked_ends(before, ends_before.0, ends_before.1, chain);
    assert forall|i: int| 0 <= i < grown.len() implies {
        &&& (#[trigger] grown[i]) < after.len()
        &&& after[grown[i] as int].next == successor(grown, i)
        &&& after[grown[i] as int].prev == predecessor(grown, i)
    } by {
        if i < pos {
            lemma_linked_at(before, ends_before.0, ends_before.1, chain, i);
            assert(after[chain[i] as int].next == (if i == pos - 1 {
                Some(id)
            } else {
                before[chain[i] as int].next
            }));
        } else if i > pos {
            lemma_linked_at(before, ends_before.0, ends_before.1, chain, i - 1);
            assert(after[chain[i - 1] as int].prev == (if i - 1 == pos {
                Some(id)
            } else {
                before[chain[i - 1] as int].prev
            }));
        }
    }
    assert(linked(after, ends_after.0, ends_after.1, grown)) by {
        reveal(linked);
    }
}

/// A chain stays linked when the node at position `pos` is taken out: its
/// two neighbours name each other, and no other relation of a remaining node
/// changes.
proof fn lemma_linked_remove<T>(
    before: Seq<Node<T>>,
    after: Seq<Node<T>>,
    ends_before: (Option<usize>, Option<usize>),
    ends_after: (Option<usize>, Option<usize>),
    chain: Seq<usize>,
    pos: int,
)
    requires
        linked(before, ends_before.0, ends_before.1, chain),
        0 <= pos < chain.len(),
        before.len() == after.len(),
        ends_after.0 == (if pos == 0 {
            successor(chain, pos)
        } else {
            ends_before.0
        }),
        ends_after.1 == (if pos == chain.len() - 1 {
            predecessor(chain, pos)
        } else {
            ends_before.1
        }),
        forall|i: int|
            0 <= i < chain.len() && i != pos ==> {
                &&& (#[trigger] after[chain[i] as int]).next == (if i == pos - 1 {
                    successor(chain, pos)
                } else {
                    before[chain[i] as int].next
                })
                &&& after[chain[i] as int].prev == (if i == pos + 1 {
                    predecessor(chain, pos)
                } else {
                    before[chain[i] as int].prev
                })
            },
    ensures
        linked(after, ends_after.0, ends_after.1, chain.remove(pos)),
{
    lemma_linked_ends(before, ends_before.0, ends_before.1, chain);
    lemma_chain_remove(chain, pos);
    lemma_linked_shrunk(before, after, ends_before, ends_after, chain, chain.remove(pos), pos);
}

/// The same, for a chain `shrunk` that is known position by position.
proof fn lemma_linked_shrunk<T>(
    before: Seq<Node<T>>,
    after: Seq<Node<T>>,
    ends_before: (Option<usize>, Option<usize>),
    ends_after: (Option<usize>, Option<usize>),
    chain: Seq<usize>,
    shrunk: Seq<usize>,
    pos: int,
)
    requires
        linked(before, ends_before.0, ends_before.1, chain),
        0 <= pos < chain.len(),
        shrunk.len() == chain.len() - 1,
        shrunk.no_duplicates(),
        forall|i: int| 0 <= i < pos ==> shrunk[i] == chain[i],
        forall|i: int| pos <= i < chain.len() - 1 ==> shrunk[i] == chain[i + 1],
        before.len() == after.len(),
        ends_after.0 == (if pos == 0 {
            successor(chain, pos)
        } else {
            ends_before.0
        }),
        ends_after.1 == (if pos == chain.len() - 1 {
            predecessor(chain, pos)
        } else {
            ends_before.1
        }),
        forall|i: int|
            0 <= i < chain.len() && i != pos ==> {
                &&& (#[trigger] after[chain[i] as int]).next == (if i == pos - 1 {
                    successor(chain, pos)
                } else {
                    before[chain[i] as int].next
                })
                &&& after[chain[i] as int].prev == (if i == pos + 1 {
                    predecessor(chain, pos)
                } else {
                    before[chain[i] as int].prev
                })
            },
    ensures
        linked(after, ends_after.0, ends_after.1, shrunk),
{
    lemma_linked_ends(before, ends_before.0, ends_before.1, chain);
    assert forall|i: int| 0 <= i < shrunk.len() implies {
        &&& (#[trigger] shrunk[i]) < after.len()
        &&& after[shrunk[i] as int].next == successor(shrunk, i)
        &&& after[shrunk[i] as int].prev == predecessor(shrunk, i)
    } by {
        let k = if i < pos { i } else { i + 1 };
        lemma_linked_at(before, ends_before.0, ends_before.1, chain, k);
        assert(after[chain[k] as int].next == (if k == pos - 1 {
            successor(chain, pos)
        } else {
            before[chain[k] as int].next
        }));
    }
    assert(linked(after, ends_after.0, ends_after.1, shrunk)) by {
        reveal(linked);
    }
}

/// A chain stays linked, in the reverse order and with its ends swapped,
/// when each of its nodes swaps its two relations.
proof fn lemma_linked_reverse<T>(
    before: Seq<Node<T>>,
    after: Seq<Node<T>>,
    head: Option<usize>,
    tail: Option<usize>,
    chain: Seq<usize>,
)
    requires
        linked(before, head, tail, chain),
        before.len() == after.len(),
        forall|i: int|
            0 <= i < chain.len() ==> {
                &&& (#[trigger] after[chain[i] as int]).next == before[chain[i] as int].prev
                &&& after[chain[i] as int].prev == before[chain[i] as int].next
            },
    ensures
        linked(after, tail, head, chain.reverse()),
        forall|x: usize| chain.reverse().contains(x) <==> chain.contains(x),
{
    reveal(linked);
    let turned = chain.reverse();
    let n = chain.len() as int;
    assert forall|i: int| 0 <= i < n implies {
        &&& (#[trigger] turned[i]) < after.len()
        &&& after[turned[i] as int].next == successor(turned, i)
        &&& after[turned[i] as int].prev == predecessor(turned, i)
    } by {
        let k = n - 1 - i;
        assert(turned[i] == chain[k]);
        assert(chain[k] < before.len());
        assert(after[chain[k] as int].next == before[chain[k] as int].prev);
    }
    assert forall|x: usize| turned.contains(x) <==> chain.contains(x) by {
        if turned.contains(x) {
            let i = choose|i: int| 0 <= i < n && turned[i] == x;
            assert(chain[n - 1 - i] == x);
        }
        if chain.contains(x) {
            let i = choose|i: int| 0 <= i < n && chain[i] == x;
            assert(turned[n - 1 - i] == x);
        }
    }
}

/// Released slots stay released while the arena only grows, no released
/// slot is written, and the chain takes up no released slot.
proof fn lemma_released_kept<T>(
    before: Seq<Node<T>>,
    after: Seq<Node<T>>,
    free: Seq<usize>,
    chain_before: Seq<usize>,
    chain_after: Seq<usize>,
)
    requires
        released(before, free, chain_before),
        before.len() <= after.len(),
        forall|j: int| 0 <= j < free.len() ==> after[(#[trigger] free[j]) as int] == before[free[j] as int],
        forall|x: usize| chain_after.contains(x) && !chain_before.contains(x) ==> !free.contains(x),
    ensures
        released(after, free, chain_after),
{
    reveal(released);
    assert forall|j: int| 0 <= j < free.len() implies {
        &&& (#[trigger] free[j]) < after.len()
        &&& !chain_after.contains(free[j])
        &&& after[free[j] as int].next is None
        &&& after[free[j] as int].prev is None
    } by {
        assert(free.contains(free[j]));
    }
}

/// A slot with both relations cleared, outside the chain and not yet
/// released, can be released.
proof fn lemma_released_push<T>(nodes: Seq<Node<T>>, free: Seq<usize>, chain: Seq<usize>, id: usize)
    requires
        released(nodes, free, chain),
        id < nodes.len(),
        !chain.contains(id),
        !free.contains(id),
        nodes[id as int].next is None,
        nodes[id as int].prev is None,
    ensures
        released(nodes, free.push(id), chain),
{
    reveal(released);
    let grown = free.push(id);
    assert forall|i: int, j: int| 0 <= i < grown.len() && 0 <= j < grown.len() && i != j implies grown[i]
        != grown[j] by {
        if i < free.len() {
            assert(free.contains(free[i]));
        }
        if j < free.len() {
            assert(free.contains(free[j]));
        }
    }
}

/// The last released slot can be taken back: it is no slot of the chain, and
/// the others stay released.
proof fn lemma_released_pop<T>(nodes: Seq<Node<T>>, free: Seq<usize>, chain: Seq<usize>)
    requires
        released(nodes, free, chain),
        free.len() > 0,
    ensures
        released(nodes, free.drop_last(), chain),
        free.last() < nodes.len(),
        !chain.contains(free.last()),
        !free.drop_last().contains(free.last()),
{
    reveal(released);
    let rest = free.drop_last();
    assert(free[free.len() - 1] < nodes.len());
    assert forall|j: int| 0 <= j < rest.len() implies {
        &&& (#[trigger] rest[j]) < nodes.len()
        &&& !chain.contains(rest[j])
        &&& nodes[rest[j] as int].next is None
        &&& nodes[rest[j] as int].prev is None
    } by {
        assert(rest[j] == free[j]);
    }
}

/// The released slot at position `j` lies in the arena, outside the chain.
proof fn lemma_released_at<T>(nodes: Seq<Node<T>>, free: Seq<usize>, chain: Seq<usize>, j: int)
    requires
        released(nodes, free, chain),
        0 <= j < free.len(),
    ensures
        free[j] < nodes.len(),
        !chain.contains(free[j]),
{
    reveal(released);
}

/// No released slot is a slot of the chain.
proof fn lemma_released_apart<T>(nodes: Seq<Node<T>>, free: Seq<usize>, chain: Seq<usize>, id: usize)
    requires
        released(nodes, free, chain),
        chain.contains(id),
    ensures
        !free.contains(id),
{
    reveal(released);
}

/// Tying a node in at `pos` puts its value in at `pos`, where the nodes of
/// the chain keep their values.
proof fn lemma_held_insert<T>(
    before: Seq<Node<T>>,
    after: Seq<Node<T>>,
    chain: Seq<usize>,
    pos: int,
    id: usize,
)
    requires
        0 <= pos <= chain.len(),
        forall|i: int|
            0 <= i < chain.len() ==> (#[trigger] after[chain[i] as int]).data
                == before[chain[i] as int].data,
    ensures
        held(after, chain.insert(pos, id)) == held(before, chain).insert(pos, *after[id as int].data),
{
    let grown = chain.insert(pos, id);
    assert forall|i: int| 0 <= i < grown.len() implies held(after, grown)[i] == held(before, chain).insert(
        pos,
        *after[id as int].data,
    )[i] by {
        if i < pos {
            assert(after[chain[i] as int].data == before[chain[i] as int].data);
        } else if i > pos {
            assert(after[chain[i - 1] as int].data == before[chain[i - 1] as int].data);
        }
    }
    assert(held(after, grown) =~= held(before, chain).insert(pos, *after[id as int].data));
}

/// Taking the node at `pos` out takes its value out, where the other nodes
/// of the chain keep their values.
proof fn lemma_held_remove<T>(before: Seq<Node<T>>, after: Seq<Node<T>>, chain: Seq<usize>, pos: int)
    requires
        0 <= pos < chain.len(),
        forall|i: int|
            0 <= i < chain.len() && i != pos ==> (#[trigger] after[chain[i] as int]).data
                == before[chain[i] as int].data,
    ensures
        held(after, chain.remove(pos)) == held(before, chain).remove(pos),
{
    let shrunk = chain.remove(pos);
    assert forall|i: int| 0 <= i < shrunk.len() implies held(after, shrunk)[i] == held(
        before,
        chain,
    ).remove(pos)[i] by {
        let k = if i < pos { i } else { i + 1 };
        assert(after[chain[k] as int].data == before[chain[k] as int].data);
    }
    assert(held(after, shrunk) =~= held(before, chain).remove(pos));
}

/// Turning the chain round turns the values round, where the nodes keep
/// their values.
proof fn lemma_held_reverse<T>(before: Seq<Node<T>>, after: Seq<Node<T>>, chain: Seq<usize>)
    requires
        forall|i: int|
            0 <= i < chain.len() ==> (#[trigger] after[chain[i] as int]).data
                == before[chain[i] as int].data,
    ensures
        held(after, chain.reverse()) == held(before, chain).reverse(),
{
    let turned = chain.reverse();
    let n = chain.len() as int;
    assert forall|i: int| 0 <= i < n implies held(after, turned)[i] == held(before, chain).reverse()[i] by {
        assert(after[chain[n - 1 - i] as int].data == before[chain[n - 1 - i] as int].data);
    }
    assert(held(after, turned) =~= held(before, chain).reverse());
}

} // verus!
