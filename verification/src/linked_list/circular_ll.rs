use vstd::prelude::*;
use crate::linked_list::model::values_of;

verus! {

/// One cell of the ring. Its successor is a slot of the list's arena; the
/// successor of the last node is the first node.
struct Node<'a, T> {
    data: &'a T,
    next: usize,
}

/// A circular linked list over borrowed values: a forward-only chain whose
/// last node refers back to its first.
pub struct CircularLinkedList<'a, T> {
    nodes: Vec<Node<'a, T>>,
    head: Option<usize>,
    ring: Ghost<Seq<usize>>,
}

impl<'a, T> CircularLinkedList<'a, T> {
    /// The slots of the nodes, in order from the head once around.
    pub closed spec fn node_ids(&self) -> Seq<usize> {
        self.ring@
    }

    /// The first node, if any.
    pub closed spec fn head_id(&self) -> Option<usize> {
        self.head
    }

    /// The node that follows node `id`.
    pub closed spec fn next_of(&self, id: usize) -> usize {
        self.nodes@[id as int].next
    }

    /// The value that node `id` holds.
    pub closed spec fn value_of(&self, id: usize) -> T {
        *self.nodes@[id as int].data
    }

    /// The values of the list, from the head once around.
    pub open spec fn view(&self) -> Seq<T> {
        Seq::new(self.node_ids().len(), |i: int| self.value_of(self.node_ids()[i]))
    }

    /// The representation is sound: the nodes form one ring that starts at
    /// the head and closes on it.
    pub closed spec fn well_formed(&self) -> bool {
        let ring = self.ring@;
        &&& ring.no_duplicates()
        &&& forall|i: int| 0 <= i < ring.len() ==> (#[trigger] ring[i]) < self.nodes@.len()
        &&& self.head == (if ring.len() == 0 {
            None
        } else {
            Some(ring[0])
        })
        &&& forall|i: int|
            0 <= i < ring.len() ==> (#[trigger] self.nodes@[ring[i] as int]).next == (if i + 1
                < ring.len() {
                ring[i + 1]
            } else {
                ring[0]
            })
    }

    /// Create a new empty circular linked list.
    pub fn new() -> (list: Self)
        ensures
            list.well_formed(),
            list@ == Seq::<T>::empty(),
    {
        Self { nodes: Vec::new(), head: None, ring: Ghost(Seq::empty()) }
    }

    /// Insert an element at the front of the list. The last node is found by
    /// walking the ring until it closes, and is made to refer to the new node.
    pub fn push_front(&mut self, data: &'a T)
        requires
            old(self).well_formed(),
        ensures
            final(self).well_formed(),
            final(self)@ == seq![*data] + old(self)@,
            final(self).node_ids().drop_first() == old(self).node_ids(),
    {
        let id = self.nodes.len();
        match self.head {
            Some(head) => {
                self.nodes.push(Node { data, next: head });
                let mut curr = head;
                let ghost mut walked: int = 0;
                while self.nodes[curr].next != head
                    invariant
                        old(self).well_formed(),
                        self.ring == old(self).ring,
                        self.nodes@ == old(self).nodes@.push(Node { data, next: head }),
                        old(self).head == Some(head),
                        0 <= walked < self.ring@.len(),
                        curr == self.ring@[walked],
                    decreases self.ring@.len() - walked,
                {
                    curr = self.nodes[curr].next;
                    proof {
                        walked = walked + 1;
                    }
                }
                assert(walked == self.ring@.len() - 1) by {
                    if walked + 1 < self.ring@.len() {
                        assert(self.ring@[walked + 1] == self.ring@[0]);
                    }
                }
                self.nodes[curr].next = id;
            },
            None => {
                self.nodes.push(Node { data, next: id });
            },
        }
        self.head = Some(id);
        proof {
            let before = old(self).ring@;
            let grown = seq![id] + before;
            self.ring@ = grown;
            assert(grown.drop_first() =~= before);
            assert forall|i: int| 0 < i < grown.len() implies grown[i] == before[i - 1] by {}
            assert forall|i: int| 0 <= i < grown.len() implies (#[trigger] self.nodes@[grown[i] as int]).next
                == (if i + 1 < grown.len() {
                grown[i + 1]
            } else {
                grown[0]
            }) by {
                if i > 0 {
                    assert(old(self).nodes@[before[i - 1] as int].next == (if i < before.len() {
                        before[i]
                    } else {
                        before[0]
                    }));
                }
            }
            assert(self@ =~= seq![*data] + old(self)@);
        }
    }

    /// The values of the list, gathered along the ring from the head until
    /// the ring closes on the head again.
    pub fn display(&self) -> (shown: Vec<&'a T>)
        requires
            self.well_formed(),
        ensures
            shown@.len() == self@.len(),
            values_of(shown@) == self@,
    {
        let mut shown: Vec<&'a T> = Vec::new();
        if let Some(head) = self.head {
            let mut current = head;
            loop
                invariant_except_break
                    shown@.len() < self.ring@.len(),
                    current == self.ring@[shown@.len() as int],
                invariant
                    self.well_formed(),
                    self.head == Some(head),
                    values_of(shown@) == self@.take(shown@.len() as int),
                ensures
                    shown@.len() == self.ring@.len(),
                decreases self.ring@.len() - shown@.len(),
            {
                shown.push(self.nodes[current].data);
                let next = self.nodes[current].next;
                if next == head {
                    proof {
                        if shown@.len() < self.ring@.len() {
                            assert(self.ring@[shown@.len() as int] == self.ring@[0]);
                        }
                    }
                    break ;
                }
                current = next;
            }
        }
        shown
    }

    /// Whether the list holds no node.
    pub fn is_empty(&self) -> (empty: bool)
        requires
            self.well_formed(),
        ensures
            empty == (self@.len() == 0),
    {
        self.head.is_none()
    }

    /// The list is empty exactly when `head` is unset. Otherwise `head` is
    /// the first node, each node but the last has the node behind it as its
    /// successor, the last node has the first as its successor, and no node
    /// stands at two positions.
    pub proof fn lemma_ring(&self)
        requires
            self.well_formed(),
        ensures
            self@.len() == self.node_ids().len(),
            self.head_id() is None <==> self@.len() == 0,
            self@.len() > 0 ==> self.head_id() == Some(self.node_ids().first()),
            self@.len() > 0 ==> self.next_of(self.node_ids().last()) == self.node_ids().first(),
            forall|i: int|
                0 <= i < self@.len() - 1 ==> self.next_of(#[trigger] self.node_ids()[i])
                    == self.node_ids()[i + 1],
            self.node_ids().no_duplicates(),
    {
        let ring = self.ring@;
        if ring.len() > 0 {
            assert(self.nodes@[ring[ring.len() - 1] as int].next == ring[0]);
        }
        assert forall|i: int| 0 <= i < ring.len() - 1 implies self.next_of(#[trigger] ring[i])
            == ring[i + 1] by {
            assert(self.nodes@[ring[i] as int].next == ring[i + 1]);
        }
    }
}

/// Builds the demonstration list: 50 is pushed to the front of an empty list,
/// then 60.
pub fn run() -> (list: CircularLinkedList<'static, i32>)
    ensures
        list.well_formed(),
        list@ == seq![60i32, 50i32],
{
    let mut circular_ll = CircularLinkedList::new();
    circular_ll.push_front(&50);
    circular_ll.push_front(&60);
    circular_ll
}

} // verus!
