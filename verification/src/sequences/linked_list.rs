//! The doubly linked list: a chain of nodes in an arena.
//!
//! The nodes live in one vector and name their neighbours by position, so
//! that no node is owned from two sides. A node that leaves the list joins
//! a chain of spare nodes, from which the next push takes its node.

use vstd::prelude::*;

verus! {

/// A node of the arena: an element with the positions of its neighbours in
/// the list, or a spare node with the position of the next spare one.
pub struct Node<T> {
    data: Option<T>,
    next: Option<usize>,
    prev: Option<usize>,
}

/// A doubly linked list of `T`. It stands for the sequence of its elements
/// from the front to the back.
pub struct CroLList<T> {
    nodes: Vec<Node<T>>,
    head: Option<usize>,
    tail: Option<usize>,
    free: Option<usize>,
    size: usize,
    /// The positions of the nodes of the list, from the front to the back.
    order: Ghost<Seq<usize>>,
    /// The positions of the spare nodes, in the order of their chain.
    spare: Ghost<Seq<usize>>,
}

/// The position `chain[i]`, or nothing past either end of the chain.
spec fn link(chain: Seq<usize>, i: int) -> Option<usize> {
    if 0 <= i < chain.len() {
        Some(chain[i])
    } else {
        None
    }
}

/// The node at place `i` of the list holds an element and names its
/// neighbours.
spec fn in_list<T>(nodes: Seq<Node<T>>, order: Seq<usize>, i: int) -> bool {
    &&& 0 <= order[i] < nodes.len()
    &&& nodes[order[i] as int].data is Some
    &&& nodes[order[i] as int].prev == link(order, i - 1)
    &&& nodes[order[i] as int].next == link(order, i + 1)
}

/// The node at place `i` of the spare chain holds nothing and names the
/// next spare node.
spec fn in_spare<T>(nodes: Seq<Node<T>>, spare: Seq<usize>, i: int) -> bool {
    &&& 0 <= spare[i] < nodes.len()
    &&& nodes[spare[i] as int].data is None
    &&& nodes[spare[i] as int].next == link(spare, i + 1)
}

/// No position occurs twice in the two chains.
spec fn apart(order: Seq<usize>, spare: Seq<usize>) -> bool {
    &&& forall|i: int, j: int|
        0 <= i < j < order.len() ==> #[trigger] order[i] != #[trigger] order[j]
    &&& forall|i: int, j: int|
        0 <= i < j < spare.len() ==> #[trigger] spare[i] != #[trigger] spare[j]
    &&& forall|i: int, j: int|
        0 <= i < order.len() && 0 <= j < spare.len() ==> #[trigger] order[i] != #[trigger] spare[j]
}

impl<T> View for CroLList<T> {
    type V = Seq<T>;

    closed spec fn view(&self) -> Seq<T> {
        Seq::new(self.order@.len(), |i: int| self.nodes@[self.order@[i] as int].data.unwrap())
    }
}

impl<T> CroLList<T> {
    /// The invariant of the list: the nodes of the list are chained from
    /// the head to the tail in both directions, the spare nodes are chained
    /// from the first spare one, and no node is in both chains or twice in
    /// one.
    pub closed spec fn wf(&self) -> bool {
        &&& self.size == self.order@.len()
        &&& self.nodes@.len() == self.order@.len() + self.spare@.len()
        &&& self.head == link(self.order@, 0)
        &&& self.tail == link(self.order@, self.order@.len() - 1)
        &&& self.free == link(self.spare@, 0)
        &&& apart(self.order@, self.spare@)
        &&& forall|i: int|
            0 <= i < self.order@.len() ==> #[trigger] in_list(self.nodes@, self.order@, i)
        &&& forall|i: int|
            0 <= i < self.spare@.len() ==> #[trigger] in_spare(self.nodes@, self.spare@, i)
    }

    /// An empty list.
    pub fn new() -> (list: Self)
        ensures
            list.wf(),
            list@ == Seq::<T>::empty(),
    {
        let list = CroLList {
            nodes: Vec::new(),
            head: None,
            tail: None,
            free: None,
            size: 0,
            order: Ghost(Seq::empty()),
            spare: Ghost(Seq::empty()),
        };
        assert(list@ =~= Seq::<T>::empty());
        list
    }

    /// The number of elements.
    pub fn size(&self) -> (n: usize)
        requires
            self.wf(),
        ensures
            n == self@.len(),
    {
        self.size
    }

    /// Whether the list holds no element.
    pub fn is_empty(&self) -> (b: bool)
        requires
            self.wf(),
        ensures
            b == (self@.len() == 0),
    {
        self.size == 0
    }

    /// The front element, if there is one.
    pub fn front(&self) -> (r: Option<&T>)
        requires
            self.wf(),
        ensures
            r == if self@.len() > 0 {
                Some(&self@[0])
            } else {
                None
            },
    {
        match self.head {
            Some(h) => {
                assert(in_list(self.nodes@, self.order@, 0));
                self.nodes[h].data.as_ref()
            },
            None => None,
        }
    }

    /// The back element, if there is one.
    pub fn back(&self) -> (r: Option<&T>)
        requires
            self.wf(),
        ensures
            r == if self@.len() > 0 {
                Some(&self@.last())
            } else {
                None
            },
    {
        match self.tail {
            Some(t) => {
                assert(in_list(self.nodes@, self.order@, self.order@.len() - 1));
                self.nodes[t].data.as_ref()
            },
            None => None,
        }
    }

    /// Takes a node for `value` from the spare chain, or a new one at the
    /// end of the arena where no node is spare. The node is not in the list
    /// yet.
    fn acquire(&mut self, value: T, prev: Option<usize>, next: Option<usize>) -> (at: usize)
        requires
            old(self).wf(),
            old(self).size < usize::MAX,
        ensures
            at < final(self).nodes@.len(),
            final(self).nodes@.len() >= old(self).nodes@.len(),
            final(self).nodes@.len() == final(self).order@.len() + 1 + final(self).spare@.len(),
            final(self).nodes@[at as int].data == Some(value),
            final(self).nodes@[at as int].prev == prev,
            final(self).nodes@[at as int].next == next,
            forall|p: int|
                0 <= p < old(self).nodes@.len() && p != at ==> #[trigger] final(self).nodes@[p]
                    == old(self).nodes@[p],
            final(self).head == old(self).head,
            final(self).tail == old(self).tail,
            final(self).size == old(self).size,
            final(self).order@ == old(self).order@,
            final(self).free == link(final(self).spare@, 0),
            apart(final(self).order@, final(self).spare@),
            forall|i: int| 0 <= i < final(self).order@.len() ==> final(self).order@[i] != at,
            forall|i: int| 0 <= i < final(self).spare@.len() ==> final(self).spare@[i] != at,
            forall|i: int|
                0 <= i < final(self).spare@.len() ==> #[trigger] in_spare(
                    final(self).nodes@,
                    final(self).spare@,
                    i,
                ),
    {
        match self.free {
            Some(f) => {
                assert(in_spare(self.nodes@, self.spare@, 0));
                let ghost before = self.nodes@;
                let ghost chain = self.spare@;
                let after = self.nodes[f].next;
                self.nodes[f] = Node { data: Some(value), next, prev };
                self.free = after;
                proof {
                    self.spare@ = chain.drop_first();
                    assert forall|i: int| 0 <= i < self.spare@.len() implies #[trigger] in_spare(
                        self.nodes@,
                        self.spare@,
                        i,
                    ) by {
                        assert(in_spare(before, chain, i + 1));
                        assert(chain[0] != chain[i + 1]);
                    }
                    assert forall|i: int| 0 <= i < self.spare@.len() implies self.spare@[i]
                        != f by {
                        assert(chain[0] != chain[i + 1]);
                    }
                    assert forall|i: int| 0 <= i < self.order@.len() implies self.order@[i]
                        != f by {
                        assert(self.order@[i] != chain[0]);
                    }
                    assert(apart(self.order@, self.spare@)) by {
                        assert forall|i: int, j: int|
                            0 <= i < j < self.spare@.len() implies #[trigger] self.spare@[i]
                            != #[trigger] self.spare@[j] by {
                            assert(chain[i + 1] != chain[j + 1]);
                        }
                        assert forall|i: int, j: int|
                            0 <= i < self.order@.len() && 0 <= j
                                < self.spare@.len() implies #[trigger] self.order@[i]
                            != #[trigger] self.spare@[j] by {
                            assert(self.order@[i] != chain[j + 1]);
                        }
                    }
                }
                f
            },
            None => {
                let ghost before = self.nodes@;
                self.nodes.push(Node { data: Some(value), next, prev });
                let at: usize = self.nodes.len() - 1;
                proof {
                    assert forall|i: int| 0 <= i < self.order@.len() implies self.order@[i]
                        != at by {
                        assert(in_list(before, self.order@, i));
                    }
                }
                at
            },
        }
    }

    /// Puts `value` at the front.
    pub fn push_front(&mut self, data: T)
        requires
            old(self).wf(),
            old(self)@.len() < usize::MAX,
        ensures
            final(self).wf(),
            final(self)@ == seq![data] + old(self)@,
    {
        let ghost chain = self.order@;
        let ghost arena = self.nodes@;
        let old_head = self.head;
        let at: usize = self.acquire(data, None, old_head);
        let ghost mid = self.nodes@;
        match old_head {
            Some(h) => {
                assert(in_list(arena, chain, 0));
                let n = &mut self.nodes[h];
                n.prev = Some(at);
            },
            None => {
                self.tail = Some(at);
            },
        }
        self.head = Some(at);
        self.size = self.size + 1;
        proof {
            self.order@ = seq![at] + chain;
            let order = self.order@;
            assert forall|i: int| 0 <= i < order.len() implies #[trigger] in_list(
                self.nodes@,
                order,
                i,
            ) by {
                if i > 0 {
                    assert(in_list(arena, chain, i - 1));
                    assert(chain[i - 1] != at);
                    if i > 1 {
                        assert(chain[0] != chain[i - 1]);
                    }
                }
            }
            assert forall|i: int| 0 <= i < self.spare@.len() implies #[trigger] in_spare(
                self.nodes@,
                self.spare@,
                i,
            ) by {
                assert(in_spare(mid, self.spare@, i));
                if chain.len() > 0 {
                    assert(chain[0] != self.spare@[i]);
                }
            }
            assert(apart(order, self.spare@)) by {
                assert forall|i: int, j: int| 0 <= i < j < order.len() implies #[trigger] order[i]
                    != #[trigger] order[j] by {
                    if i > 0 {
                        assert(chain[i - 1] != chain[j - 1]);
                    } else {
                        assert(chain[j - 1] != at);
                    }
                }
                assert forall|i: int, j: int|
                    0 <= i < order.len() && 0 <= j < self.spare@.len() implies #[trigger] order[i]
                    != #[trigger] self.spare@[j] by {
                    if i > 0 {
                        assert(chain[i - 1] != self.spare@[j]);
                    }
                }
            }
            assert forall|i: int| 0 <= i < order.len() implies self@[i] == (seq![data] + old(self)@)[i] by {
                if i > 0 {
                    assert(in_list(arena, chain, i - 1));
                    assert(chain[i - 1] != at);
                    if i > 1 {
                        assert(chain[0] != chain[i - 1]);
                    }
                }
            }
            assert(self@ =~= seq![data] + old(self)@);
        }
    }

    /// Puts `value` at the back.
    pub fn push_back(&mut self, data: T)
        requires
            old(self).wf(),
            old(self)@.len() < usize::MAX,
        ensures
            final(self).wf(),
            final(self)@ == old(self)@.push(data),
    {
        let ghost chain = self.order@;
        let ghost arena = self.nodes@;
        let old_tail = self.tail;
        let at: usize = self.acquire(data, old_tail, None);
        let ghost mid = self.nodes@;
        match old_tail {
            Some(t) => {
                assert(in_list(arena, chain, chain.len() - 1));
                let n = &mut self.nodes[t];
                n.next = Some(at);
            },
            None => {
                self.head = Some(at);
            },
        }
        self.tail = Some(at);
        self.size = self.size + 1;
        proof {
            self.order@ = chain.push(at);
            let order = self.order@;
            let last = chain.len() - 1;
            assert forall|i: int| 0 <= i < order.len() implies #[trigger] in_list(
                self.nodes@,
                order,
                i,
            ) by {
                if i < chain.len() {
                    assert(in_list(arena, chain, i));
                    assert(chain[i] != at);
                    if i < last {
                        assert(chain[i] != chain[last]);
                    }
                }
            }
            assert forall|i: int| 0 <= i < self.spare@.len() implies #[trigger] in_spare(
                self.nodes@,
                self.spare@,
                i,
            ) by {
                assert(in_spare(mid, self.spare@, i));
                if chain.len() > 0 {
                    assert(chain[last] != self.spare@[i]);
                }
            }
            assert(apart(order, self.spare@)) by {
                assert forall|i: int, j: int| 0 <= i < j < order.len() implies #[trigger] order[i]
                    != #[trigger] order[j] by {
                    if j < chain.len() {
                        assert(chain[i] != chain[j]);
                    } else {
                        assert(chain[i] != at);
                    }
                }
                assert forall|i: int, j: int|
                    0 <= i < order.len() && 0 <= j < self.spare@.len() implies #[trigger] order[i]
                    != #[trigger] self.spare@[j] by {
                    if i < chain.len() {
                        assert(chain[i] != self.spare@[j]);
                    }
                }
            }
            assert forall|i: int| 0 <= i < order.len() implies self@[i] == old(self)@.push(
                data,
            )[i] by {
                if i < chain.len() {
                    assert(in_list(arena, chain, i));
                    assert(chain[i] != at);
                    if i < last {
                        assert(chain[i] != chain[last]);
                    }
                }
            }
            assert(self@ =~= old(self)@.push(data));
        }
    }

    /// Takes the element out of the node at `at` and puts the node at the
    /// head of the spare chain. The node is no longer in the list.
    fn release(&mut self, at: usize) -> (value: Option<T>)
        requires
            at < old(self).nodes@.len(),
            old(self).free == link(old(self).spare@, 0),
            forall|i: int| 0 <= i < old(self).spare@.len() ==> old(self).spare@[i] != at,
            forall|i: int|
                0 <= i < old(self).spare@.len() ==> #[trigger] in_spare(
                    old(self).nodes@,
                    old(self).spare@,
                    i,
                ),
        ensures
            value == old(self).nodes@[at as int].data,
            final(self).nodes@.len() == old(self).nodes@.len(),
            forall|p: int|
                0 <= p < old(self).nodes@.len() && p != at ==> #[trigger] final(self).nodes@[p]
                    == old(self).nodes@[p],
            final(self).head == old(self).head,
            final(self).tail == old(self).tail,
            final(self).size == old(self).size,
            final(self).order@ == old(self).order@,
            final(self).spare@ == seq![at] + old(self).spare@,
            final(self).free == link(final(self).spare@, 0),
            forall|i: int|
                0 <= i < final(self).spare@.len() ==> #[trigger] in_spare(
                    final(self).nodes@,
                    final(self).spare@,
                    i,
                ),
    {
        let ghost before = self.nodes@;
        let ghost chain = self.spare@;
        let spare_head = self.free;
        let n = &mut self.nodes[at];
        let value = n.data.take();
        n.next = spare_head;
        n.prev = None;
        self.free = Some(at);
        proof {
            self.spare@ = seq![at] + chain;
            assert forall|i: int| 0 <= i < self.spare@.len() implies #[trigger] in_spare(
                self.nodes@,
                self.spare@,
                i,
            ) by {
                if i > 0 {
                    assert(in_spare(before, chain, i - 1));
                    assert(chain[i - 1] != at);
                }
            }
        }
        value
    }

    /// Removes and returns the front element, or `None` from an empty list.
    pub fn pop_front(&mut self) -> (r: Option<T>)
        requires
            old(self).wf(),
        ensures
            final(self).wf(),
            old(self)@.len() == 0 ==> r.is_none(),
            old(self)@.len() == 0 ==> final(self)@ == old(self)@,
            old(self)@.len() > 0 ==> r == Some(old(self)@[0]),
            old(self)@.len() > 0 ==> final(self)@ == old(self)@.drop_first(),
    {
        let ghost chain = self.order@;
        let ghost arena = self.nodes@;
        let ghost spare_before = self.spare@;
        match self.head {
            None => None,
            Some(h) => {
                assert(in_list(arena, chain, 0));
                let next = self.nodes[h].next;
                proof {
                    assert forall|i: int| 0 <= i < spare_before.len() implies spare_before[i]
                        != h by {
                        assert(chain[0] != spare_before[i]);
                    }
                }
                let value = self.release(h);
                let ghost mid = self.nodes@;
                match next {
                    Some(nx) => {
                        assert(in_list(arena, chain, 1));
                        let n = &mut self.nodes[nx];
                        n.prev = None;
                    },
                    None => {
                        self.tail = None;
                    },
                }
                self.head = next;
                self.size = self.size - 1;
                proof {
                    self.order@ = chain.drop_first();
                    let order = self.order@;
                    assert forall|i: int| 0 <= i < order.len() implies #[trigger] in_list(
                        self.nodes@,
                        order,
                        i,
                    ) by {
                        assert(in_list(arena, chain, i + 1));
                        assert(chain[0] != chain[i + 1]);
                        if i > 0 {
                            assert(chain[1] != chain[i + 1]);
                        }
                    }
                    assert forall|i: int|
                        0 <= i < self.spare@.len() implies #[trigger] in_spare(
                        self.nodes@,
                        self.spare@,
                        i,
                    ) by {
                        assert(in_spare(mid, self.spare@, i));
                        if chain.len() > 1 {
                            if i > 0 {
                                assert(chain[1] != spare_before[i - 1]);
                            } else {
                                assert(chain[0] != chain[1]);
                            }
                        }
                    }
                    assert(apart(order, self.spare@)) by {
                        assert forall|i: int, j: int|
                            0 <= i < j < order.len() implies #[trigger] order[i]
                            != #[trigger] order[j] by {
                            assert(chain[i + 1] != chain[j + 1]);
                        }
                        assert forall|i: int, j: int|
                            0 <= i < j < self.spare@.len() implies #[trigger] self.spare@[i]
                            != #[trigger] self.spare@[j] by {
                            if i > 0 {
                                assert(spare_before[i - 1] != spare_before[j - 1]);
                            } else {
                                assert(chain[0] != spare_before[j - 1]);
                            }
                        }
                        assert forall|i: int, j: int|
                            0 <= i < order.len() && 0 <= j
                                < self.spare@.len() implies #[trigger] order[i]
                            != #[trigger] self.spare@[j] by {
                            if j > 0 {
                                assert(chain[i + 1] != spare_before[j - 1]);
                            } else {
                                assert(chain[0] != chain[i + 1]);
                            }
                        }
                    }
                    let rest = old(self)@.drop_first();
                    assert forall|i: int| 0 <= i < order.len() implies self@[i] == rest[i] by {
                        assert(in_list(arena, chain, i + 1));
                        assert(chain[0] != chain[i + 1]);
                        if i > 0 {
                            assert(chain[1] != chain[i + 1]);
                        }
                    }
                    assert(self@ =~= old(self)@.drop_first());
                }
                value
            },
        }
    }

    /// Removes and returns the back element, or `None` from an empty list.
    pub fn pop_back(&mut self) -> (r: Option<T>)
        requires
            old(self).wf(),
        ensures
            final(self).wf(),
            old(self)@.len() == 0 ==> r.is_none(),
            old(self)@.len() == 0 ==> final(self)@ == old(self)@,
            old(self)@.len() > 0 ==> r == Some(old(self)@.last()),
            old(self)@.len() > 0 ==> final(self)@ == old(self)@.drop_last(),
    {
        let ghost chain = self.order@;
        let ghost arena = self.nodes@;
        let ghost spare_before = self.spare@;
        let ghost last = chain.len() - 1;
        match self.tail {
            None => None,
            Some(t) => {
                assert(in_list(arena, chain, last));
                let prev = self.nodes[t].prev;
                proof {
                    assert forall|i: int| 0 <= i < spare_before.len() implies spare_before[i]
                        != t by {
                        assert(chain[last] != spare_before[i]);
                    }
                }
                let value = self.release(t);
                let ghost mid = self.nodes@;
                match prev {
                    Some(pv) => {
                        assert(in_list(arena, chain, last - 1));
                        let n = &mut self.nodes[pv];
                        n.next = None;
                    },
                    None => {
                        self.head = None;
                    },
                }
                self.tail = prev;
                self.size = self.size - 1;
                proof {
                    self.order@ = chain.drop_last();
                    let order = self.order@;
                    assert forall|i: int| 0 <= i < order.len() implies #[trigger] in_list(
                        self.nodes@,
                        order,
                        i,
                    ) by {
                        assert(in_list(arena, chain, i));
                        assert(chain[i] != chain[last]);
                        if i < last - 1 {
                            assert(chain[i] != chain[last - 1]);
                        }
                    }
                    assert forall|i: int|
                        0 <= i < self.spare@.len() implies #[trigger] in_spare(
                        self.nodes@,
                        self.spare@,
                        i,
                    ) by {
                        assert(in_spare(mid, self.spare@, i));
                        if chain.len() > 1 {
                            if i > 0 {
                                assert(chain[last - 1] != spare_before[i - 1]);
                            } else {
                                assert(chain[last - 1] != chain[last]);
                            }
                        }
                    }
                    assert(apart(order, self.spare@)) by {
                        assert forall|i: int, j: int|
                            0 <= i < j < order.len() implies #[trigger] order[i]
                            != #[trigger] order[j] by {
                            assert(chain[i] != chain[j]);
                        }
                        assert forall|i: int, j: int|
                            0 <= i < j < self.spare@.len() implies #[trigger] self.spare@[i]
                            != #[trigger] self.spare@[j] by {
                            if i > 0 {
                                assert(spare_before[i - 1] != spare_before[j - 1]);
                            } else {
                                assert(chain[last] != spare_before[j - 1]);
                            }
                        }
                        assert forall|i: int, j: int|
                            0 <= i < order.len() && 0 <= j
                                < self.spare@.len() implies #[trigger] order[i]
                            != #[trigger] self.spare@[j] by {
                            if j > 0 {
                                assert(chain[i] != spare_before[j - 1]);
                            } else {
                                assert(chain[i] != chain[last]);
                            }
                        }
                    }
                    let rest = old(self)@.drop_last();
                    assert forall|i: int| 0 <= i < order.len() implies self@[i] == rest[i] by {
                        assert(in_list(arena, chain, i));
                        assert(chain[i] != chain[last]);
                        if i < last - 1 {
                            assert(chain[i] != chain[last - 1]);
                        }
                    }
                    assert(self@ =~= old(self)@.drop_last());
                }
                value
            },
        }
    }

    /// Drops every element, from the front on.
    pub fn wipe(&mut self)
        requires
            old(self).wf(),
        ensures
            final(self).wf(),
            final(self)@ == Seq::<T>::empty(),
    {
        while self.size > 0
            invariant
                self.wf(),
            decreases self@.len(),
        {
            let _ = self.pop_front();
        }
        assert(self@ =~= Seq::<T>::empty());
    }

    /// Turns the list into a cursor that hands out its elements from the
    /// front on.
    pub fn into_iter(self) -> (it: IntoIter<T>)
        requires
            self.wf(),
        ensures
            it.wf(),
            it.remaining() == self@,
    {
        IntoIter(self)
    }
}

/// A cursor over the elements of a list that was turned into it.
pub struct IntoIter<T>(CroLList<T>);

impl<T> IntoIter<T> {
    /// The elements that the cursor has not handed out yet.
    pub closed spec fn remaining(&self) -> Seq<T> {
        self.0@
    }

    /// The invariant of the cursor: that of the list behind it.
    pub closed spec fn wf(&self) -> bool {
        self.0.wf()
    }

    /// Hands out the next element, or `None` when none is left.
    pub fn next(&mut self) -> (r: Option<T>)
        requires
            old(self).wf(),
        ensures
            final(self).wf(),
            old(self).remaining().len() == 0 ==> r.is_none(),
            old(self).remaining().len() == 0 ==> final(self).remaining() == old(self).remaining(),
            old(self).remaining().len() > 0 ==> r == Some(old(self).remaining()[0]),
            old(self).remaining().len() > 0 ==> final(self).remaining() == old(self).remaining().drop_first(),
    {
        self.0.pop_front()
    }
}

} // verus!
