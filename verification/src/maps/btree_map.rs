//! The B-tree map: an ordered map whose nodes hold up to `order - 1` keys.

use crate::maps::assoc::{
    ascending, find, lemma_ascending_parts, lemma_find_at, lemma_find_by_rank, lemma_inside,
    lemma_map_of_len, lemma_map_of_put, lemma_put_ascending, lemma_put_at, lemma_rank_unique,
    lemma_weave_around, lemma_weave_divide, lemma_weave_last, lemma_weave_replace,
    lemma_weave_split, map_of, put, rank, weave, woven_after, woven_before,
};
use crate::maps::model::{lookup, unref};
use crate::order::{is_lt, is_same, lemma_le_chain, lt, total_order};
use crate::sequences::vec::{lemma_element_is_smaller, CroVec};
use vstd::prelude::*;

verus! {

broadcast use lemma_element_is_smaller;

/// A node of the tree: its keys in ascending order, the value of each key,
/// and, unless it is a leaf, one child more than it has keys.
struct Node<K, V> {
    keys: CroVec<K>,
    values: CroVec<V>,
    /// The children of an internal node; a leaf has none.
    children: Option<CroVec<Node<K, V>>>,
}

/// An ordered map from `K` to `V`.
pub struct CroBTree<K, V> {
    root: Option<Node<K, V>>,
    order: usize,
    length: usize,
}

/// The fewest keys that a node other than the root holds in a tree of the
/// given order: what the smaller half of a full node keeps when it splits.
/// For an even order that is half the order less one.
pub open spec fn min_keys(order: usize) -> int {
    (order - 2) / 2
}

impl<K, V> Node<K, V> {
    /// The children, none for a leaf.
    spec fn kids(self) -> Seq<Node<K, V>> {
        match self.children {
            Some(c) => c@,
            None => Seq::empty(),
        }
    }

    /// The keys of the node with their values.
    spec fn pairs(self) -> Seq<(K, V)> {
        Seq::new(self.keys@.len(), |i: int| (self.keys@[i], self.values@[i]))
    }

    /// What the children hold, child by child.
    spec fn parts(self) -> Seq<Seq<(K, V)>>
        decreases self, 0nat,
    {
        Seq::new(
            self.kids().len(),
            |i: int|
                if 0 <= i < self.kids().len() {
                    self.kids()[i].flat()
                } else {
                    Seq::empty()
                },
        )
    }

    /// Everything below the node, in key order.
    spec fn flat(self) -> Seq<(K, V)>
        decreases self, 1nat,
    {
        if self.children.is_none() {
            self.pairs()
        } else {
            weave(self.parts(), self.pairs())
        }
    }

    /// The number of levels below the node.
    spec fn height(self) -> nat
        decreases self,
    {
        if self.kids().len() == 0 {
            0
        } else {
            1 + self.kids()[0].height()
        }
    }
}

impl<K: Ord, V> Node<K, V> {
    /// The invariant of a node in a tree of the given order.
    spec fn wf(self, order: usize) -> bool
        decreases self,
    {
        &&& order >= 3
        &&& self.keys.wf()
        &&& self.values.wf()
        &&& self.keys@.len() == self.values@.len()
        &&& self.keys@.len() <= order - 1
        &&& match self.children {
            Some(c) => c.wf() && c@.len() == self.keys@.len() + 1,
            None => true,
        }
        &&& forall|i: int|
            0 <= i < self.kids().len() ==> {
                &&& (#[trigger] self.kids()[i]).wf(order)
                &&& self.kids()[i].height() == self.kids()[0].height()
                &&& self.kids()[i].keys@.len() >= min_keys(order)
            }
        &&& ascending(self.flat())
    }
}

impl<K: Ord, V> Node<K, V> {
    /// A node without keys: a leaf, or an internal node that has no child
    /// yet. Its arrays have room for a full node.
    fn new(is_leaf: bool, order: usize) -> (node: Self)
        requires
            order >= 3,
        ensures
            node.keys.wf(),
            node.values.wf(),
            node.keys@.len() == 0,
            node.values@.len() == 0,
            node.children.is_none() == is_leaf,
            !is_leaf ==> node.children.unwrap().wf() && node.children.unwrap()@.len() == 0,
    {
        let mut keys = CroVec::new();
        let mut values = CroVec::new();
        keys.reserve(order - 1);
        values.reserve(order - 1);
        let children = if is_leaf {
            None
        } else {
            let mut kids = CroVec::new();
            kids.reserve(order);
            Some(kids)
        };
        Node { keys, values, children }
    }

    /// Whether the node holds as many keys as a node of this order can.
    fn is_full(&self, order: usize) -> (full: bool)
        requires
            order >= 3,
        ensures
            full == (self.keys@.len() == order - 1),
    {
        self.keys.size() == order - 1
    }

    /// The place of `key` among the keys of the node: the first position
    /// whose key is not below `key`.
    fn scan(&self, key: &K) -> (i: usize)
        requires
            total_order::<K>(),
        ensures
            i <= self.keys@.len(),
            forall|j: int| 0 <= j < i ==> lt(#[trigger] self.keys@[j], *key),
            i < self.keys@.len() ==> !lt(self.keys@[i as int], *key),
    {
        let n: usize = self.keys.size();
        let mut i: usize = 0;
        while i < n && is_lt(self.keys.get(i), key)
            invariant
                i <= n,
                n == self.keys@.len(),
                total_order::<K>(),
                forall|j: int| 0 <= j < i ==> lt(#[trigger] self.keys@[j], *key),
            decreases n - i,
        {
            i = i + 1;
        }
        i
    }

    /// Where an internal node's own pair `i` stands in everything below the
    /// node.
    spec fn place(self, i: int) -> int {
        weave(self.parts().subrange(0, i + 1), self.pairs().subrange(0, i)).len() as int
    }

    /// Everything below an internal node falls into what lies up to its
    /// pair `i`, that pair, and what lies after it.
    proof fn lemma_at_pair(self, i: int)
        requires
            self.children.is_some(),
            self.kids().len() == self.keys@.len() + 1,
            0 <= i < self.keys@.len(),
        ensures
            0 <= self.place(i) < self.flat().len(),
            self.flat()[self.place(i)] == (self.keys@[i], self.values@[i]),
            self.flat() == weave(
                self.parts().subrange(0, i + 1),
                self.pairs().subrange(0, i),
            ).push(self.pairs()[i]) + weave(
                self.parts().subrange(i + 1, self.parts().len() as int),
                self.pairs().subrange(i + 1, self.pairs().len() as int),
            ),
    {
        lemma_weave_split(self.parts(), self.pairs(), i);
    }

    /// In a node whose pairs ascend, the place that `scan` finds is the
    /// place of the key among the pairs.
    proof fn lemma_scan_is_rank(self, key: K, i: int)
        requires
            total_order::<K>(),
            ascending(self.pairs()),
            self.keys@.len() == self.values@.len(),
            0 <= i <= self.keys@.len(),
            forall|j: int| 0 <= j < i ==> lt(#[trigger] self.keys@[j], key),
            i < self.keys@.len() ==> !lt(self.keys@[i], key),
        ensures
            rank(self.pairs(), key) == i,
    {
        let s = self.pairs();
        assert forall|j: int| 0 <= j < i implies lt((#[trigger] s[j]).0, key) by {
            assert(lt(self.keys@[j], key));
        }
        assert forall|j: int| i <= j < s.len() implies !lt((#[trigger] s[j]).0, key) by {
            if j > i {
                assert(lt(s[i].0, s[j].0));
                lemma_le_chain(s[j].0, key, s[i].0);
                lemma_le_chain(s[i].0, s[j].0, s[i].0);
                lemma_le_chain(s[i].0, s[i].0, s[i].0);
            }
        }
        lemma_rank_unique(s, key, i);
    }

    /// In an internal node, a key that `scan` places at `i` without finding
    /// it there lies above everything before child `i` and below everything
    /// after it.
    proof fn lemma_descend(self, order: usize, key: K, i: int)
        requires
            total_order::<K>(),
            self.wf(order),
            self.children.is_some(),
            0 <= i <= self.keys@.len(),
            forall|j: int| 0 <= j < i ==> lt(#[trigger] self.keys@[j], key),
            i < self.keys@.len() ==> !lt(self.keys@[i], key) && self.keys@[i] != key,
        ensures
            self.flat() == woven_before(self.parts(), self.pairs(), i) + self.kids()[i].flat()
                + woven_after(self.parts(), self.pairs(), i),
            woven_before(self.parts(), self.pairs(), i).len() > 0 ==> lt(
                woven_before(self.parts(), self.pairs(), i).last().0,
                key,
            ),
            woven_after(self.parts(), self.pairs(), i).len() > 0 ==> lt(
                key,
                woven_after(self.parts(), self.pairs(), i)[0].0,
            ),
    {
        lemma_weave_around(self.parts(), self.pairs(), i);
        if i > 0 {
            assert(lt(self.keys@[i - 1], key));
        }
    }

    /// Looks `key` up below the node.
    fn get_in_node(&self, key: &K, Ghost(order): Ghost<usize>) -> (r: Option<&V>)
        requires
            total_order::<K>(),
            self.wf(order),
        ensures
            r == match find(self.flat(), *key) {
                Some(v) => Some(&v),
                None => None,
            },
        decreases self,
    {
        let i: usize = self.scan(key);
        if i < self.keys.size() && is_same(key, self.keys.get(i)) {
            proof {
                if self.children.is_some() {
                    self.lemma_at_pair(i as int);
                    lemma_find_at(self.flat(), self.place(i as int));
                } else {
                    lemma_find_at(self.flat(), i as int);
                }
            }
            Some(self.values.get(i))
        } else {
            match &self.children {
                None => {
                    proof {
                        self.lemma_scan_is_rank(*key, i as int);
                        lemma_find_by_rank(self.flat(), *key);
                    }
                    None
                },
                Some(kids) => {
                    proof {
                        self.lemma_descend(order, *key, i as int);
                        lemma_inside(
                            woven_before(self.parts(), self.pairs(), i as int),
                            self.kids()[i as int].flat(),
                            woven_after(self.parts(), self.pairs(), i as int),
                            *key,
                            self.values@[0],
                        );
                    }
                    kids.get(i).get_in_node(key, Ghost(order))
                },
            }
        }
    }
}

impl<K: Ord, V> Node<K, V> {
    /// What `halve` leaves: `lower` and `upper` are the two halves of the
    /// full node `whole`, around its middle pair.
    proof fn lemma_halved(whole: Self, lower: Self, upper: Self, order: usize)
        requires
            total_order::<K>(),
            whole.wf(order),
            whole.keys@.len() == order - 1,
            lower.keys.wf(),
            lower.values.wf(),
            upper.keys.wf(),
            upper.values.wf(),
            lower.keys@ == whole.keys@.subrange(0, (order - 1) / 2),
            lower.values@ == whole.values@.subrange(0, (order - 1) / 2),
            upper.keys@ == whole.keys@.subrange((order - 1) / 2 + 1, order - 1),
            upper.values@ == whole.values@.subrange((order - 1) / 2 + 1, order - 1),
            whole.children.is_none() ==> lower.children.is_none() && upper.children.is_none(),
            whole.children.is_some() ==> {
                &&& lower.children.is_some()
                &&& upper.children.is_some()
                &&& lower.children.unwrap().wf()
                &&& upper.children.unwrap().wf()
                &&& lower.kids() == whole.kids().subrange(0, (order - 1) / 2 + 1)
                &&& upper.kids() == whole.kids().subrange((order - 1) / 2 + 1, order as int)
            },
        ensures
            lower.wf(order),
            upper.wf(order),
            whole.flat() == lower.flat().push(whole.pairs()[(order - 1) / 2]) + upper.flat(),
            lower.height() == whole.height(),
            upper.height() == whole.height(),
            lower.keys@.len() >= min_keys(order),
            upper.keys@.len() >= min_keys(order),
    {
        let n = whole.keys@.len() as int;
        let m = (order - 1) / 2;
        let mid_pair = whole.pairs()[m];
        assert(lower.pairs() =~= whole.pairs().subrange(0, m));
        assert(upper.pairs() =~= whole.pairs().subrange(m + 1, n));
        if whole.children.is_some() {
            assert(lower.parts() =~= whole.parts().subrange(0, m + 1));
            assert(upper.parts() =~= whole.parts().subrange(m + 1, n + 1));
            lemma_weave_split(whole.parts(), whole.pairs(), m);
            assert(upper.kids()[0] == whole.kids()[m + 1]);
            assert(lower.kids()[0] == whole.kids()[0]);
            assert forall|i: int| 0 <= i < lower.kids().len() implies (
            #[trigger] lower.kids()[i]).wf(order) && lower.kids()[i].height()
                == lower.kids()[0].height() && lower.kids()[i].keys@.len() >= min_keys(order) by {
                assert(lower.kids()[i] == whole.kids()[i]);
            }
            assert forall|i: int| 0 <= i < upper.kids().len() implies (
            #[trigger] upper.kids()[i]).wf(order) && upper.kids()[i].height()
                == upper.kids()[0].height() && upper.kids()[i].keys@.len() >= min_keys(order) by {
                assert(upper.kids()[i] == whole.kids()[m + 1 + i]);
            }
        } else {
            assert(whole.pairs() =~= whole.pairs().subrange(0, m).push(mid_pair)
                + whole.pairs().subrange(m + 1, n));
        }
        let lower_len = lower.flat().len() as int;
        assert(whole.flat() == lower.flat().push(mid_pair) + upper.flat());
        assert(lower.flat() =~= whole.flat().subrange(0, lower_len));
        assert(upper.flat() =~= whole.flat().subrange(lower_len + 1, whole.flat().len() as int));
        lemma_ascending_parts(whole.flat(), 0, lower_len);
        lemma_ascending_parts(whole.flat(), lower_len + 1, whole.flat().len() as int);
    }

    /// Splits a full node in two: the keys after the middle one leave, with
    /// their values and the children after them, as a new node. The middle
    /// key and its value are handed back for the parent.
    fn halve(&mut self, order: usize) -> (r: (K, V, Node<K, V>))
        requires
            total_order::<K>(),
            old(self).wf(order),
            old(self).keys@.len() == order - 1,
        ensures
            final(self).wf(order),
            r.2.wf(order),
            old(self).flat() == final(self).flat().push((r.0, r.1)) + r.2.flat(),
            final(self).height() == old(self).height(),
            r.2.height() == old(self).height(),
            final(self).keys@.len() == (order - 1) / 2,
            r.2.keys@.len() == order - 2 - (order - 1) / 2,
            final(self).keys@.len() >= min_keys(order),
            r.2.keys@.len() >= min_keys(order),
    {
        let mid: usize = (order - 1) / 2;
        let ghost whole = *self;
        let upper_keys = self.keys.split_off(mid + 1);
        let upper_values = self.values.split_off(mid + 1);
        let upper_children = match self.children.as_mut() {
            Some(kids) => Some(kids.split_off(mid + 1)),
            None => None,
        };
        let mid_key = self.keys.pop().unwrap();
        let mid_value = self.values.pop().unwrap();
        let upper = Node { keys: upper_keys, values: upper_values, children: upper_children };
        proof {
            let m = mid as int;
            assert(self.keys@ =~= whole.keys@.subrange(0, m));
            assert(self.values@ =~= whole.values@.subrange(0, m));
            assert(mid_key == whole.keys@[m] && mid_value == whole.values@[m]);
            if whole.children.is_some() {
                assert(self.kids() =~= whole.kids().subrange(0, m + 1));
                assert(upper.kids() =~= whole.kids().subrange(m + 1, order as int));
            }
            Self::lemma_halved(whole, *self, upper, order);
        }
        (mid_key, mid_value, upper)
    }

    /// Splits the full child `index` of this node, which is not full itself:
    /// the child keeps what lies before its middle key, a new sibling right
    /// after it takes what lies after, and the middle key with its value
    /// moves up into this node, between the two.
    fn split_child(&mut self, index: usize, order: usize)
        requires
            total_order::<K>(),
            old(self).wf(order),
            old(self).children.is_some(),
            index < old(self).kids().len(),
            old(self).kids()[index as int].keys@.len() == order - 1,
            old(self).keys@.len() < order - 1,
        ensures
            final(self).wf(order),
            final(self).children.is_some(),
            final(self).flat() == old(self).flat(),
            final(self).height() == old(self).height(),
            final(self).keys@ == old(self).keys@.insert(
                index as int,
                final(self).keys@[index as int],
            ),
            final(self).kids()[index as int].keys@.len() < order - 1,
            final(self).kids()[index + 1].keys@.len() < order - 1,
    {
        let ghost before = *self;
        let kids = self.children.as_mut().unwrap();
        let child = kids.get_mut(index);
        let (mid_key, mid_value, upper) = child.halve(order);
        kids.insert(index + 1, upper);
        self.keys.insert(index, mid_key);
        self.values.insert(index, mid_value);
        proof {
            let i = index as int;
            assert(self.kids() =~= before.kids().update(i, self.kids()[i]).insert(i + 1, upper));
            assert(self.keys@ =~= before.keys@.insert(i, mid_key));
            assert(self.values@ =~= before.values@.insert(i, mid_value));
            Self::lemma_child_split(before, *self, i, order);
        }
    }

    /// What `split_child` leaves: `after` is `before` with its child `i`
    /// replaced by the two halves of that child, and the pair between them
    /// moved up.
    proof fn lemma_child_split(before: Self, after: Self, i: int, order: usize)
        requires
            total_order::<K>(),
            before.wf(order),
            before.children.is_some(),
            after.children.is_some(),
            0 <= i < before.kids().len(),
            before.keys@.len() < order - 1,
            after.keys.wf(),
            after.values.wf(),
            after.children.unwrap().wf(),
            after.kids().len() == before.kids().len() + 1,
            after.kids() == before.kids().update(i, after.kids()[i]).insert(
                i + 1,
                after.kids()[i + 1],
            ),
            after.keys@ == before.keys@.insert(i, after.keys@[i]),
            after.values@ == before.values@.insert(i, after.values@[i]),
            after.kids()[i].wf(order),
            after.kids()[i + 1].wf(order),
            after.kids()[i].height() == before.kids()[i].height(),
            after.kids()[i + 1].height() == before.kids()[i].height(),
            after.kids()[i].keys@.len() >= min_keys(order),
            after.kids()[i + 1].keys@.len() >= min_keys(order),
            before.kids()[i].flat() == after.kids()[i].flat().push(
                (after.keys@[i], after.values@[i]),
            ) + after.kids()[i + 1].flat(),
        ensures
            after.wf(order),
            after.flat() == before.flat(),
            after.height() == before.height(),
    {
        let lower = after.kids()[i];
        let upper = after.kids()[i + 1];
        let mid_pair = (after.keys@[i], after.values@[i]);
        let parts2 = before.parts().update(i, lower.flat()).insert(i + 1, upper.flat());
        assert forall|j: int| 0 <= j < after.parts().len() implies after.parts()[j]
            == parts2[j] by {
            if j < i {
                assert(after.kids()[j] == before.kids()[j]);
            } else if j > i + 1 {
                assert(after.kids()[j] == before.kids()[j - 1]);
            }
        }
        assert(after.parts() =~= parts2);
        assert(after.pairs() =~= before.pairs().insert(i, mid_pair));
        lemma_weave_divide(before.parts(), before.pairs(), i, lower.flat(), mid_pair, upper.flat());
        assert(before.kids()[0].height() == before.kids()[i].height());
        assert(after.kids()[0].height() == before.kids()[0].height()) by {
            if i > 0 {
                assert(after.kids()[0] == before.kids()[0]);
            }
        }
        assert forall|j: int| 0 <= j < after.kids().len() implies (
        #[trigger] after.kids()[j]).wf(order) && after.kids()[j].height()
            == after.kids()[0].height() && after.kids()[j].keys@.len() >= min_keys(order) by {
            if j < i {
                assert(after.kids()[j] == before.kids()[j]);
            } else if j > i + 1 {
                assert(after.kids()[j] == before.kids()[j - 1]);
            }
        }
    }

    /// What replacing the value of the node's own pair `i` leaves.
    proof fn lemma_value_replaced(before: Self, after: Self, i: int, value: V, order: usize)
        requires
            total_order::<K>(),
            before.wf(order),
            0 <= i < before.keys@.len(),
            after.keys == before.keys,
            after.children == before.children,
            after.values.wf(),
            after.values@ == before.values@.update(i, value),
        ensures
            after.wf(order),
            after.flat() == put(before.flat(), before.keys@[i], value),
            find(before.flat(), before.keys@[i]) == Some(before.values@[i]),
            after.height() == before.height(),
    {
        let key = before.keys@[i];
        assert(after.pairs() =~= before.pairs().update(i, (key, value)));
        assert(after.parts() =~= before.parts());
        if before.children.is_some() {
            before.lemma_at_pair(i);
            after.lemma_at_pair(i);
            let pos = before.place(i);
            assert(after.pairs().subrange(0, i) =~= before.pairs().subrange(0, i));
            assert(after.pairs().subrange(i + 1, after.pairs().len() as int)
                =~= before.pairs().subrange(i + 1, before.pairs().len() as int));
            assert(after.flat() =~= before.flat().update(pos, (key, value)));
            lemma_put_at(before.flat(), pos, key, value);
        } else {
            lemma_put_at(before.flat(), i, key, value);
        }
        lemma_put_ascending(before.flat(), key, value);
        assert forall|j: int| 0 <= j < after.kids().len() implies (
        #[trigger] after.kids()[j]).wf(order) && after.kids()[j].height()
            == after.kids()[0].height() && after.kids()[j].keys@.len() >= min_keys(order) by {
            assert(after.kids()[j] == before.kids()[j]);
        }
    }

    /// What inserting a new pair at the place of its key leaves in a leaf.
    proof fn lemma_leaf_grown(before: Self, after: Self, i: int, key: K, value: V, order: usize)
        requires
            total_order::<K>(),
            before.wf(order),
            before.children.is_none(),
            after.children.is_none(),
            before.keys@.len() < order - 1,
            0 <= i <= before.keys@.len(),
            forall|j: int| 0 <= j < i ==> lt(#[trigger] before.keys@[j], key),
            i < before.keys@.len() ==> !lt(before.keys@[i], key) && before.keys@[i] != key,
            after.keys.wf(),
            after.values.wf(),
            after.keys@ == before.keys@.insert(i, key),
            after.values@ == before.values@.insert(i, value),
        ensures
            after.wf(order),
            after.flat() == put(before.flat(), key, value),
            find(before.flat(), key).is_none(),
            after.height() == before.height(),
    {
        before.lemma_scan_is_rank(key, i);
        lemma_find_by_rank(before.flat(), key);
        assert(after.pairs() =~= before.pairs().insert(i, (key, value)));
        lemma_put_ascending(before.flat(), key, value);
    }

    /// What storing a pair below child `i` leaves in an internal node, where
    /// the key belongs below that child.
    proof fn lemma_child_grown(before: Self, after: Self, i: int, key: K, value: V, order: usize)
        requires
            total_order::<K>(),
            before.wf(order),
            before.children.is_some(),
            after.children.is_some(),
            0 <= i <= before.keys@.len(),
            forall|j: int| 0 <= j < i ==> lt(#[trigger] before.keys@[j], key),
            i < before.keys@.len() ==> !lt(before.keys@[i], key) && before.keys@[i] != key,
            after.keys == before.keys,
            after.values == before.values,
            after.children.unwrap().wf(),
            after.kids() == before.kids().update(i, after.kids()[i]),
            after.kids()[i].wf(order),
            after.kids()[i].flat() == put(before.kids()[i].flat(), key, value),
            after.kids()[i].height() == before.kids()[i].height(),
            after.kids()[i].keys@.len() >= before.kids()[i].keys@.len(),
        ensures
            after.wf(order),
            after.flat() == put(before.flat(), key, value),
            find(before.flat(), key) == find(before.kids()[i].flat(), key),
            after.height() == before.height(),
    {
        let pre = woven_before(before.parts(), before.pairs(), i);
        let post = woven_after(before.parts(), before.pairs(), i);
        before.lemma_descend(order, key, i);
        lemma_inside(pre, before.kids()[i].flat(), post, key, value);
        assert(after.pairs() =~= before.pairs());
        assert(after.parts() =~= before.parts().update(i, after.kids()[i].flat())) by {
            assert forall|j: int| 0 <= j < after.parts().len() implies after.parts()[j]
                == before.parts().update(i, after.kids()[i].flat())[j] by {
                if j != i {
                    assert(after.kids()[j] == before.kids()[j]);
                }
            }
        }
        lemma_weave_replace(before.parts(), before.pairs(), i, after.kids()[i].flat());
        lemma_put_ascending(before.flat(), key, value);
        assert(before.kids()[0].height() == before.kids()[i].height());
        assert forall|j: int| 0 <= j < after.kids().len() implies (
        #[trigger] after.kids()[j]).wf(order) && after.kids()[j].height()
            == after.kids()[0].height() && after.kids()[j].keys@.len() >= min_keys(order) by {
            if j != i {
                assert(after.kids()[j] == before.kids()[j]);
            }
            if i != 0 {
                assert(after.kids()[0] == before.kids()[0]);
            }
        }
    }

    /// Stores `value` for `key` below this node, which is not full. A full
    /// child on the way down is split before the descent goes into it.
    /// Returns the value that the key had.
    fn insert_non_full(&mut self, key: K, value: V, order: usize) -> (r: Option<V>)
        requires
            total_order::<K>(),
            old(self).wf(order),
            old(self).keys@.len() < order - 1,
        ensures
            final(self).wf(order),
            final(self).flat() == put(old(self).flat(), key, value),
            r == find(old(self).flat(), key),
            final(self).height() == old(self).height(),
            final(self).keys@.len() >= old(self).keys@.len(),
        decreases old(self).height(),
    {
        let ghost start = *self;
        let mut i: usize = self.scan(&key);
        if i < self.keys.size() && is_same(&key, self.keys.get(i)) {
            let prev = self.values.replace(i, value);
            proof {
                Self::lemma_value_replaced(start, *self, i as int, value, order);
            }
            return Some(prev);
        }
        if self.children.is_none() {
            self.keys.insert(i, key);
            self.values.insert(i, value);
            proof {
                Self::lemma_leaf_grown(start, *self, i as int, key, value, order);
            }
            return None;
        }
        let full: bool = self.children.as_ref().unwrap().get(i).is_full(order);
        if full {
            self.split_child(i, order);
            if is_same(&key, self.keys.get(i)) {
                let ghost halved = *self;
                let prev = self.values.replace(i, value);
                proof {
                    Self::lemma_value_replaced(halved, *self, i as int, value, order);
                }
                return Some(prev);
            }
            if is_lt(self.keys.get(i), &key) {
                i = i + 1;
            }
        }
        let ghost ready = *self;
        proof {
            assert forall|j: int| 0 <= j < i implies lt(#[trigger] ready.keys@[j], key) by {
                if full {
                    if j < i - 1 {
                        assert(lt(start.keys@[j], key));
                    }
                }
            }
            assert(ready.kids()[0].height() == ready.kids()[i as int].height());
            assert(ready.kids()[i as int].wf(order));
            assert(ready.kids()[i as int].keys@.len() < order - 1);
        }
        let kids = self.children.as_mut().unwrap();
        let child = kids.get_mut(i);
        let r = child.insert_non_full(key, value, order);
        proof {
            assert(self.kids() =~= ready.kids().update(i as int, self.kids()[i as int]));
            Self::lemma_child_grown(ready, *self, i as int, key, value, order);
        }
        r
    }
}

impl<K, V> Node<K, V> {
    /// Every leaf below the node is exactly `depth` levels down.
    spec fn level(self, depth: nat) -> bool
        decreases self,
    {
        if self.children.is_none() {
            depth == 0
        } else {
            depth > 0 && forall|i: int|
                0 <= i < self.kids().len() ==> (#[trigger] self.kids()[i]).level((depth - 1) as nat)
        }
    }
}

impl<K: Ord, V> Node<K, V> {
    /// Below a node that meets its invariant every leaf is as many levels
    /// down as the node is high.
    proof fn lemma_leaves_level(self, order: usize)
        requires
            self.wf(order),
        ensures
            self.level(self.height()),
        decreases self,
    {
        if self.children.is_some() {
            assert forall|i: int| 0 <= i < self.kids().len() implies (
            #[trigger] self.kids()[i]).level((self.height() - 1) as nat) by {
                assert(self.kids()[i].wf(order));
                assert(self.kids()[i].height() == self.kids()[0].height());
                self.kids()[i].lemma_leaves_level(order);
            }
        }
    }
}

impl<K, V> View for CroBTree<K, V> {
    type V = Map<K, V>;

    /// The map that the entries stand for.
    open spec fn view(&self) -> Map<K, V> {
        map_of(self.entries())
    }
}

impl<K, V> CroBTree<K, V> {
    /// The pairs of the map in key order, as an in-order walk of the tree
    /// meets them.
    pub closed spec fn entries(&self) -> Seq<(K, V)> {
        match self.root {
            Some(root) => root.flat(),
            None => Seq::empty(),
        }
    }

    /// The order of the tree: the most children that a node may have.
    pub closed spec fn spec_order(&self) -> usize {
        self.order
    }

    /// Every leaf of the tree is at the same depth.
    pub closed spec fn balanced(&self) -> bool {
        match self.root {
            Some(root) => exists|depth: nat| root.level(depth),
            None => true,
        }
    }
}

impl<K: Ord, V> CroBTree<K, V> {
    /// The invariant of the tree: its order is at least 3, every node holds
    /// at most `order - 1` keys and, unless it is the root, at least
    /// `min_keys(order)`, an internal node has one child more than keys, all
    /// leaves are at one depth, the keys ascend along the in-order walk, and
    /// the recorded length is the number of pairs.
    pub closed spec fn wf(&self) -> bool {
        &&& self.order >= 3
        &&& self.length == self.entries().len()
        &&& match self.root {
            Some(root) => root.wf(self.order),
            None => true,
        }
    }

    /// The entries of a tree ascend strictly by key, and all its leaves are
    /// at one depth.
    pub proof fn lemma_entries_ascend(&self)
        requires
            self.wf(),
        ensures
            ascending(self.entries()),
            self.balanced(),
            self.spec_order() >= 3,
    {
        if let Some(root) = self.root {
            root.lemma_leaves_level(self.order);
        }
    }

    /// The map of a tree has as many keys as the tree has entries.
    pub proof fn lemma_len(&self)
        requires
            total_order::<K>(),
            self.wf(),
        ensures
            self@.dom().finite(),
            self@.len() == self.entries().len(),
    {
        self.lemma_entries_ascend();
        lemma_map_of_len(self.entries());
    }

    /// An empty tree of order 6.
    pub fn new() -> (tree: Self)
        ensures
            tree.wf(),
            tree.spec_order() == 6,
            tree.entries() == Seq::<(K, V)>::empty(),
    {
        Self::with_order(6)
    }

    /// An empty tree of the given order, which is at least 3.
    pub fn with_order(order: usize) -> (tree: Self)
        requires
            order >= 3,
        ensures
            tree.wf(),
            tree.spec_order() == order,
            tree.entries() == Seq::<(K, V)>::empty(),
    {
        CroBTree { root: None, order, length: 0 }
    }

    /// The order that the tree was made with.
    pub fn order(&self) -> (order: usize)
        ensures
            order == self.spec_order(),
    {
        self.order
    }

    /// The number of pairs.
    pub fn len(&self) -> (n: usize)
        requires
            self.wf(),
        ensures
            n == self.entries().len(),
    {
        self.length
    }

    /// Whether the tree holds no pair.
    pub fn is_empty(&self) -> (b: bool)
        requires
            self.wf(),
        ensures
            b == (self.entries().len() == 0),
    {
        self.length == 0
    }

    /// Drops every pair. The order stays.
    pub fn wipe(&mut self)
        ensures
            final(self).spec_order() == old(self).spec_order(),
            final(self).entries() == Seq::<(K, V)>::empty(),
            old(self).wf() ==> final(self).wf(),
    {
        self.root = None;
        self.length = 0;
    }

    /// Stores `value` for `key` and returns the value that the key had, if
    /// it had one. A full root is split before the descent begins, and a
    /// full child before the descent goes into it.
    pub fn insert(&mut self, key: K, value: V) -> (r: Option<V>)
        requires
            total_order::<K>(),
            old(self).wf(),
            old(self).entries().len() < usize::MAX,
        ensures
            final(self).wf(),
            final(self).balanced(),
            final(self).spec_order() == old(self).spec_order(),
            final(self).entries() == put(old(self).entries(), key, value),
            final(self)@ == old(self)@.insert(key, value),
            r == find(old(self).entries(), key),
            r == lookup(old(self)@, key),
            final(self).entries().len() == if r.is_some() {
                old(self).entries().len()
            } else {
                old(self).entries().len() + 1
            },
    {
        let order: usize = self.order;
        let ghost before = old(self).entries();
        let mut root = match self.root.take() {
            Some(root) => root,
            None => Node::new(true, order),
        };
        assert(root.flat() =~= before);
        if root.is_full(order) {
            let ghost old_root = root;
            let mut new_root = Node::new(false, order);
            let mut kids = new_root.children.take().unwrap();
            kids.push(root);
            new_root.children = Some(kids);
            proof {
                assert(new_root.kids() =~= seq![old_root]);
                assert(new_root.parts() =~= seq![old_root.flat()]);
                assert(new_root.pairs() =~= Seq::<(K, V)>::empty());
                assert(new_root.flat() == old_root.flat());
            }
            new_root.split_child(0, order);
            root = new_root;
        }
        let r = root.insert_non_full(key, value, order);
        proof {
            lemma_put_ascending(before, key, value);
            lemma_map_of_put(before, key, value);
            root.lemma_leaves_level(order);
        }
        self.root = Some(root);
        if r.is_none() {
            self.length = self.length + 1;
        }
        r
    }

    /// The value stored for `key`, if there is one.
    pub fn get(&self, key: &K) -> (r: Option<&V>)
        requires
            total_order::<K>(),
            self.wf(),
        ensures
            r == match find(self.entries(), *key) {
                Some(v) => Some(&v),
                None => None,
            },
            r == match lookup(self@, *key) {
                Some(v) => Some(&v),
                None => None,
            },
    {
        match &self.root {
            None => None,
            Some(node) => node.get_in_node(key, Ghost(self.order)),
        }
    }

    /// Whether a value is stored for `key`.
    pub fn contains_key(&self, key: &K) -> (b: bool)
        requires
            total_order::<K>(),
            self.wf(),
        ensures
            b == find(self.entries(), *key).is_some(),
            b == self@.contains_key(*key),
    {
        self.get(key).is_some()
    }
}

impl<K: Ord, V> Node<K, V> {
    /// What is woven from the first children and pairs of an internal node
    /// is no longer than everything below the node.
    proof fn lemma_woven_prefix(self, i: int)
        requires
            self.children.is_some(),
            self.kids().len() == self.keys@.len() + 1,
            0 <= i <= self.keys@.len(),
        ensures
            weave(self.parts().subrange(0, i + 1), self.pairs().subrange(0, i)).len()
                <= self.flat().len(),
            i < self.keys@.len() ==> weave(
                self.parts().subrange(0, i + 1),
                self.pairs().subrange(0, i),
            ).len() < self.flat().len(),
    {
        if i < self.keys@.len() {
            lemma_weave_split(self.parts(), self.pairs(), i);
        } else {
            assert(self.parts().subrange(0, i + 1) =~= self.parts());
            assert(self.pairs().subrange(0, i) =~= self.pairs());
        }
    }

    /// Appends to `out` everything below the node, in key order: for an
    /// internal node its first child, then each of its pairs followed by
    /// the next child.
    fn collect<'a>(&'a self, out: &mut CroVec<(&'a K, &'a V)>, Ghost(order): Ghost<usize>)
        requires
            self.wf(order),
            old(out).wf(),
            old(out)@.len() + self.flat().len() <= usize::MAX,
        ensures
            final(out).wf(),
            unref(final(out)@) == unref(old(out)@) + self.flat(),
        decreases self,
    {
        let n: usize = self.keys.size();
        let ghost start = unref(out@);
        match &self.children {
            None => {
                let mut i: usize = 0;
                while i < n
                    invariant
                        i <= n,
                        n == self.keys@.len(),
                        n == self.values@.len(),
                        self.children.is_none(),
                        out.wf(),
                        start.len() + n <= usize::MAX,
                        unref(out@) == start + self.pairs().subrange(0, i as int),
                    decreases n - i,
                {
                    let ghost prev = out@;
                    assert(unref(prev).len() == prev.len());
                    out.push((self.keys.get(i), self.values.get(i)));
                    assert(unref(out@) =~= unref(prev).push(self.pairs()[i as int]));
                    assert(unref(out@) =~= start + self.pairs().subrange(0, i + 1));
                    i = i + 1;
                }
                assert(self.pairs().subrange(0, n as int) =~= self.pairs());
            },
            Some(kids) => {
                proof {
                    self.lemma_woven_prefix(0);
                    assert(self.parts().subrange(0, 1) =~= seq![self.kids()[0].flat()]);
                    assert(self.kids()[0].wf(order));
                    assert(unref(out@).len() == out@.len());
                }
                kids.get(0).collect(out, Ghost(order));
                let mut i: usize = 0;
                while i < n
                    invariant
                        i <= n,
                        n == self.keys@.len(),
                        self.wf(order),
                        self.children == Some(*kids),
                        out.wf(),
                        start.len() + self.flat().len() <= usize::MAX,
                        unref(out@) == start + weave(
                            self.parts().subrange(0, i + 1),
                            self.pairs().subrange(0, i as int),
                        ),
                    decreases n - i,
                {
                    let ghost upto = weave(
                        self.parts().subrange(0, i + 1),
                        self.pairs().subrange(0, i as int),
                    );
                    let ghost next = weave(
                        self.parts().subrange(0, i + 2),
                        self.pairs().subrange(0, i + 1),
                    );
                    proof {
                        self.lemma_woven_prefix(i as int);
                        self.lemma_woven_prefix(i + 1);
                        assert(self.parts().subrange(0, i + 2).drop_last()
                            =~= self.parts().subrange(0, i + 1));
                        assert(self.pairs().subrange(0, i + 1).drop_last()
                            =~= self.pairs().subrange(0, i as int));
                        assert(next == upto.push(self.pairs()[i as int]) + self.kids()[i
                            + 1].flat());
                        assert(self.kids()[i + 1].wf(order));
                    }
                    let ghost prev = out@;
                    assert(unref(prev).len() == prev.len());
                    out.push((self.keys.get(i), self.values.get(i)));
                    assert(unref(out@) =~= unref(prev).push(self.pairs()[i as int]));
                    assert(unref(out@).len() == out@.len());
                    kids.get(i + 1).collect(out, Ghost(order));
                    assert(unref(out@) =~= start + next);
                    i = i + 1;
                }
                assert(self.parts().subrange(0, n + 1) =~= self.parts());
                assert(self.pairs().subrange(0, n as int) =~= self.pairs());
            },
        }
    }
}

impl<K: Ord, V> CroBTree<K, V> {
    /// The pairs of the map in key order, by an in-order walk of the tree.
    pub fn iter(&self) -> (items: CroVec<(&K, &V)>)
        requires
            self.wf(),
        ensures
            items.wf(),
            unref(items@) == self.entries(),
            ascending(unref(items@)),
    {
        proof {
            self.lemma_entries_ascend();
        }
        let mut items = CroVec::with_cap(self.length);
        assert(unref(items@) =~= Seq::<(K, V)>::empty());
        match &self.root {
            None => {},
            Some(root) => {
                root.collect(&mut items, Ghost(self.order));
            },
        }
        items
    }
}

impl<K: Ord, V> Node<K, V> {
    /// `after` is `before` with `value` in place of the value `prev` that
    /// `key` had below the node.
    spec fn rewritten(before: Self, after: Self, key: K, prev: V, value: V, order: usize) -> bool {
        &&& find(before.flat(), key) == Some(prev)
        &&& after.wf(order)
        &&& after.flat() == put(before.flat(), key, value)
        &&& after.height() == before.height()
        &&& after.keys@.len() == before.keys@.len()
    }

    /// `after` holds below it what `before` holds, in a tree of the same
    /// shape at the node.
    spec fn same_below(before: Self, after: Self, order: usize) -> bool {
        &&& after.wf(order)
        &&& after.flat() == before.flat()
        &&& after.height() == before.height()
        &&& after.keys@.len() == before.keys@.len()
    }

    /// `after` is `before` but for the value of its own pair `i`.
    spec fn value_swapped(before: Self, after: Self, i: int, value: V) -> bool {
        &&& after.keys == before.keys
        &&& after.children == before.children
        &&& after.values.wf()
        &&& after.values@ == before.values@.update(i, value)
    }

    /// `after` is `before` but for its child `i`.
    spec fn child_swapped(before: Self, after: Self, i: int) -> bool {
        &&& after.keys == before.keys
        &&& after.values == before.values
        &&& after.children.is_some()
        &&& after.children.unwrap().wf()
        &&& after.kids() == before.kids().update(i, after.kids()[i])
    }

    /// A node whose child `i` holds what it held, holds what it held.
    proof fn lemma_child_same(before: Self, after: Self, i: int, order: usize)
        requires
            before.wf(order),
            before.children.is_some(),
            0 <= i < before.kids().len(),
            Self::child_swapped(before, after, i),
            Self::same_below(before.kids()[i], after.kids()[i], order),
        ensures
            Self::same_below(before, after, order),
    {
        assert(after.pairs() =~= before.pairs());
        assert(after.parts() =~= before.parts()) by {
            assert forall|j: int| 0 <= j < after.parts().len() implies after.parts()[j]
                == before.parts()[j] by {
                if j != i {
                    assert(after.kids()[j] == before.kids()[j]);
                }
            }
        }
        assert(before.kids()[0].height() == before.kids()[i].height());
        assert(before.kids()[i].keys@.len() >= min_keys(order));
        assert forall|j: int| 0 <= j < after.kids().len() implies (
        #[trigger] after.kids()[j]).wf(order) && after.kids()[j].height()
            == after.kids()[0].height() && after.kids()[j].keys@.len() >= min_keys(order) by {
            if j != i {
                assert(after.kids()[j] == before.kids()[j]);
            }
            if i != 0 {
                assert(after.kids()[0] == before.kids()[0]);
            }
        }
    }

    /// Looks `key` up below the node, for a change of its value.
    fn get_mut_in_node(&mut self, key: &K, Ghost(order): Ghost<usize>) -> (r: Option<&mut V>)
        requires
            total_order::<K>(),
            old(self).wf(order),
        ensures
            match r {
                Some(v) => Self::rewritten(*old(self), *final(self), *key, *v, *final(v), order),
                None => find(old(self).flat(), *key).is_none() && Self::same_below(
                    *old(self),
                    *final(self),
                    order,
                ),
            },
        decreases *old(self),
    {
        let ghost start = *self;
        let i: usize = self.scan(key);
        if i < self.keys.size() && is_same(key, self.keys.get(i)) {
            proof {
                assert forall|after: Self, value: V|
                    Self::value_swapped(start, after, i as int, value) implies #[trigger] Self::rewritten(
                    start,
                    after,
                    *key,
                    start.values@[i as int],
                    value,
                    order,
                ) by {
                    Self::lemma_value_replaced(start, after, i as int, value, order);
                }
            }
            let v = self.values.get_mut(i);
            Some(v)
        } else {
            match &mut self.children {
                None => {
                    proof {
                        start.lemma_scan_is_rank(*key, i as int);
                        lemma_find_by_rank(start.flat(), *key);
                    }
                    None
                },
                Some(kids) => {
                    proof {
                        assert(start.kids()[i as int].wf(order));
                        assert forall|after: Self, prev: V, value: V|
                            Self::child_swapped(start, after, i as int) && Self::rewritten(
                                start.kids()[i as int],
                                after.kids()[i as int],
                                *key,
                                prev,
                                value,
                                order,
                            ) implies #[trigger] Self::rewritten(
                            start,
                            after,
                            *key,
                            prev,
                            value,
                            order,
                        ) by {
                            Self::lemma_child_grown(start, after, i as int, *key, value, order);
                        }
                        assert forall|after: Self|
                            Self::child_swapped(start, after, i as int) && Self::same_below(
                                start.kids()[i as int],
                                after.kids()[i as int],
                                order,
                            ) implies #[trigger] Self::same_below(start, after, order) by {
                            Self::lemma_child_same(start, after, i as int, order);
                        }
                        start.lemma_descend(order, *key, i as int);
                        lemma_inside(
                            woven_before(start.parts(), start.pairs(), i as int),
                            start.kids()[i as int].flat(),
                            woven_after(start.parts(), start.pairs(), i as int),
                            *key,
                            start.values@[0],
                        );
                    }
                    let child = kids.get_mut(i);
                    child.get_mut_in_node(key, Ghost(order))
                },
            }
        }
    }
}

impl<K: Ord, V> CroBTree<K, V> {
    /// Mutable access to the value stored for `key`, if there is one. What
    /// is written through it becomes the value of `key`; nothing else
    /// changes.
    pub fn get_mut(&mut self, key: &K) -> (r: Option<&mut V>)
        requires
            total_order::<K>(),
            old(self).wf(),
        ensures
            final(self).wf(),
            final(self).spec_order() == old(self).spec_order(),
            match r {
                Some(v) => {
                    &&& find(old(self).entries(), *key) == Some(*v)
                    &&& final(self).entries() == put(old(self).entries(), *key, *final(v))
                    &&& final(self)@ == old(self)@.insert(*key, *final(v))
                },
                None => {
                    &&& find(old(self).entries(), *key).is_none()
                    &&& final(self).entries() == old(self).entries()
                },
            },
    {
        let ghost before = self.entries();
        proof {
            assert forall|value: V|
                find(before, *key).is_some() implies (#[trigger] put(before, *key, value)).len()
                == before.len() && map_of(put(before, *key, value)) == map_of(before).insert(
                *key,
                value,
            ) by {
                lemma_put_ascending(before, *key, value);
                lemma_map_of_put(before, *key, value);
            }
        }
        let ghost order = self.order;
        match &mut self.root {
            None => None,
            Some(node) => node.get_mut_in_node(key, Ghost(order)),
        }
    }
}

impl<K: Ord, V> Node<K, V> {
    /// Moves everything below the node to the end of `out`, in descending
    /// key order: for an internal node its last child, then each of its
    /// pairs, from the last on, followed by the child before it.
    fn unload(self, out: &mut CroVec<(K, V)>, Ghost(order): Ghost<usize>)
        requires
            self.wf(order),
            old(out).wf(),
            old(out)@.len() + self.flat().len() <= usize::MAX,
        ensures
            final(out).wf(),
            final(out)@ == old(out)@ + self.flat().reverse(),
        decreases self,
    {
        let ghost whole = self;
        let ghost start = out@;
        let ghost parts = self.parts();
        let ghost pairs = self.pairs();
        let ghost kid_seq = self.kids();
        let mut keys = self.keys;
        let mut values = self.values;
        let ghost mut done: Seq<(K, V)> = Seq::empty();
        match self.children {
            None => {
                assert(out@ =~= start + done.reverse());
                assert(pairs.subrange(0, pairs.len() as int) =~= pairs);
                while keys.size() > 0
                    invariant
                        keys.wf(),
                        values.wf(),
                        out.wf(),
                        keys@.len() == values@.len(),
                        keys@.len() <= pairs.len(),
                        pairs.len() == whole.keys@.len(),
                        whole.keys@.len() == whole.values@.len(),
                        keys@ == whole.keys@.subrange(0, keys@.len() as int),
                        values@ == whole.values@.subrange(0, keys@.len() as int),
                        pairs == whole.pairs(),
                        out@ == start + done.reverse(),
                        pairs.subrange(0, keys@.len() as int) + done == pairs,
                        start.len() + pairs.len() <= usize::MAX,
                    decreases keys@.len(),
                {
                    let ghost m = keys@.len() as int;
                    let ghost prev = done;
                    assert((pairs.subrange(0, m) + prev).len() == m + prev.len());
                    let key = keys.pop().unwrap();
                    let value = values.pop().unwrap();
                    out.push((key, value));
                    proof {
                        done = seq![(key, value)] + prev;
                        assert(keys@ =~= whole.keys@.subrange(0, m - 1));
                        assert(values@ =~= whole.values@.subrange(0, m - 1));
                        assert(pairs[m - 1] == (key, value));
                        assert(done.reverse() =~= prev.reverse().push((key, value)));
                        assert(pairs.subrange(0, m - 1) + done =~= pairs.subrange(0, m) + prev);
                    }
                }
                assert(done =~= pairs);
            },
            Some(kids) => {
                let mut kids = kids;
                let ghost flat = whole.flat();
                proof {
                    assert(out@ =~= start + done.reverse());
                    lemma_weave_last(parts, pairs, 0);
                    assert forall|i: int| 0 <= i < kid_seq.len() implies (
                    #[trigger] kid_seq[i]).wf(order) && parts[i] == kid_seq[i].flat() by {
                        assert(whole.kids()[i].wf(order));
                    }
                    assert(weave(
                        parts.subrange(0, kid_seq.len() as int),
                        pairs.subrange(0, pairs.len() as int),
                    ) + done =~= flat);
                }
                while kids.size() > 0
                    invariant
                        keys.wf(),
                        values.wf(),
                        kids.wf(),
                        out.wf(),
                        whole == self,
                        whole.children.is_some(),
                        kid_seq == whole.children.unwrap()@,
                        parts.len() == kid_seq.len(),
                        pairs.len() + 1 == kid_seq.len(),
                        pairs.len() == whole.keys@.len(),
                        whole.keys@.len() == whole.values@.len(),
                        forall|i: int|
                            0 <= i < kid_seq.len() ==> (#[trigger] kid_seq[i]).wf(order) && parts[i]
                                == kid_seq[i].flat(),
                        forall|i: int|
                            0 <= i < pairs.len() ==> #[trigger] pairs[i] == (
                                whole.keys@[i],
                                whole.values@[i],
                            ),
                        keys@.len() == values@.len(),
                        keys@.len() <= whole.keys@.len(),
                        kids@.len() == 0 ==> keys@.len() == 0,
                        kids@.len() > 0 ==> kids@.len() == keys@.len() + 1,
                        keys@ == whole.keys@.subrange(0, keys@.len() as int),
                        values@ == whole.values@.subrange(0, keys@.len() as int),
                        kids@ == kid_seq.subrange(0, kids@.len() as int),
                        out@ == start + done.reverse(),
                        kids@.len() > 0 ==> weave(
                            parts.subrange(0, kids@.len() as int),
                            pairs.subrange(0, keys@.len() as int),
                        ) + done == flat,
                        kids@.len() == 0 ==> done == flat,
                        start.len() + flat.len() <= usize::MAX,
                    decreases kids@.len(),
                {
                    let ghost m = keys@.len() as int;
                    let ghost prev = done;
                    let ghost woven = weave(parts.subrange(0, m + 1), pairs.subrange(0, m));
                    proof {
                        assert((woven + prev).len() == woven.len() + prev.len());
                        lemma_weave_last(parts, pairs, m);
                        assert(out@.len() == start.len() + prev.len());
                    }
                    let child = kids.pop().unwrap();
                    proof {
                        assert(child == kid_seq[m]);
                        assert(kids@ =~= kid_seq.subrange(0, m));
                        lemma_element_is_smaller(whole.children.unwrap(), m);
                    }
                    child.unload(out, Ghost(order));
                    proof {
                        done = parts[m] + prev;
                        assert(done.reverse() =~= prev.reverse() + parts[m].reverse());
                    }
                    if keys.size() > 0 {
                        let ghost mid = done;
                        let key = keys.pop().unwrap();
                        let value = values.pop().unwrap();
                        proof {
                            assert(keys@ =~= whole.keys@.subrange(0, m - 1));
                            assert(values@ =~= whole.values@.subrange(0, m - 1));
                            assert(pairs[m - 1] == (key, value));
                            assert(out@.len() == start.len() + done.len());
                        }
                        out.push((key, value));
                        proof {
                            done = seq![(key, value)] + mid;
                            assert(done.reverse() =~= mid.reverse().push((key, value)));
                            assert(weave(parts.subrange(0, m), pairs.subrange(0, m - 1)) + done
                                =~= woven + prev);
                        }
                    } else {
                        assert(done =~= woven + prev);
                    }
                }
            },
        }
    }
}

impl<K: Ord, V> CroBTree<K, V> {
    /// Moves every pair out of the tree, in key order, and leaves the tree
    /// empty. The order stays.
    pub fn drain(&mut self) -> (pairs: CroVec<(K, V)>)
        requires
            old(self).wf(),
        ensures
            final(self).wf(),
            final(self).spec_order() == old(self).spec_order(),
            final(self).entries() == Seq::<(K, V)>::empty(),
            pairs.wf(),
            pairs@ == old(self).entries(),
    {
        let ghost all = self.entries();
        let mut backward: CroVec<(K, V)> = CroVec::with_cap(self.length);
        match self.root.take() {
            Some(root) => {
                root.unload(&mut backward, Ghost(self.order));
            },
            None => {},
        }
        self.length = 0;
        assert(backward@ =~= all.reverse());
        let mut pairs: CroVec<(K, V)> = CroVec::with_cap(backward.size());
        while backward.size() > 0
            invariant
                backward.wf(),
                pairs.wf(),
                backward@.len() <= all.len(),
                all.len() <= usize::MAX,
                backward@ == all.reverse().subrange(0, backward@.len() as int),
                pairs@ == all.subrange(0, all.len() - backward@.len()),
            decreases backward@.len(),
        {
            let ghost r = backward@.len() as int;
            let item = backward.pop().unwrap();
            pairs.push(item);
            assert(backward@ =~= all.reverse().subrange(0, r - 1));
            assert(pairs@ =~= all.subrange(0, all.len() - (r - 1)));
        }
        assert(pairs@ =~= all);
        pairs
    }
}

} // verus!
