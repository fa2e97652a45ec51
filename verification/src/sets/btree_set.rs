//! The ordered set: an adapter over the B-tree map that stores no values.
//!
//! The set stands for the set of its keys (`@`), which it holds in
//! ascending order (`elems`). Operations that take keys out rebuild the
//! tree from the keys that stay, as the tree itself has no removal.

use crate::maps::assoc::{ascending, find, lemma_find, lemma_find_put};
use crate::maps::btree_map::CroBTree;
use crate::maps::model::unref;
use crate::order::{is_lt, is_same, lemma_le_chain, lt, total_order};
use crate::sequences::vec::CroVec;
use vstd::prelude::*;

verus! {

/// An ordered set of `K`.
pub struct CroBTreeSet<K> {
    tree: CroBTree<K, ()>,
}

/// The keys of a sequence of pairs.
pub open spec fn keys_of<K>(s: Seq<(K, ())>) -> Seq<K> {
    Seq::new(s.len(), |i: int| s[i].0)
}

/// The keys that a sequence of borrowed keys refers to.
pub open spec fn derefs<K>(s: Seq<&K>) -> Seq<K> {
    Seq::new(s.len(), |i: int| *s[i])
}

/// The keys of `s` ascend strictly.
pub open spec fn increasing<K: PartialOrd>(s: Seq<K>) -> bool {
    forall|i: int, j: int| 0 <= i < j < s.len() ==> lt(#[trigger] s[i], #[trigger] s[j])
}

/// A key is among the keys of a sequence of pairs exactly if a lookup finds
/// it, and the keys of an ascending sequence ascend.
pub proof fn lemma_keys_of<K: PartialOrd>(s: Seq<(K, ())>, k: K)
    ensures
        keys_of(s).contains(k) <==> find(s, k).is_some(),
        ascending(s) ==> increasing(keys_of(s)),
{
    lemma_find(s, k);
    if find(s, k).is_some() {
        let i = choose|i: int| 0 <= i < s.len() && #[trigger] s[i] == (k, find(s, k).unwrap());
        assert(keys_of(s)[i] == k);
    }
    if keys_of(s).contains(k) {
        let i = choose|i: int| 0 <= i < keys_of(s).len() && keys_of(s)[i] == k;
        assert(s[i].0 == k);
    }
    if ascending(s) {
        assert forall|i: int, j: int| 0 <= i < j < keys_of(s).len() implies lt(
            #[trigger] keys_of(s)[i],
            #[trigger] keys_of(s)[j],
        ) by {
            assert(lt(s[i].0, s[j].0));
        }
    }
}

impl<K> View for CroBTreeSet<K> {
    type V = Set<K>;

    /// The set of the keys.
    open spec fn view(&self) -> Set<K> {
        Set::new(|k: K| self.elems().contains(k))
    }
}

impl<K> CroBTreeSet<K> {
    /// The keys of the set in ascending order.
    pub closed spec fn elems(&self) -> Seq<K> {
        keys_of(self.tree.entries())
    }

    /// The order of the tree behind the set.
    pub closed spec fn spec_order(&self) -> usize {
        self.tree.spec_order()
    }
}

impl<K: Ord> CroBTreeSet<K> {
    /// The invariant of the set: that of the tree behind it.
    pub closed spec fn wf(&self) -> bool {
        self.tree.wf()
    }

    /// The keys of a set ascend strictly.
    pub proof fn lemma_elems_ascend(&self)
        requires
            self.wf(),
        ensures
            increasing(self.elems()),
            self.spec_order() >= 3,
    {
        self.tree.lemma_entries_ascend();
        if self.tree.entries().len() > 0 {
            lemma_keys_of(self.tree.entries(), self.tree.entries()[0].0);
        }
    }

    /// A set has as many members as it has keys.
    pub proof fn lemma_len(&self)
        requires
            total_order::<K>(),
            self.wf(),
        ensures
            self@.finite(),
            self@.len() == self.elems().len(),
    {
        self.tree.lemma_len();
        assert(self@ =~= self.tree@.dom()) by {
            assert forall|k: K| self@.contains(k) == self.tree@.dom().contains(k) by {
                lemma_keys_of(self.tree.entries(), k);
            }
        }
    }

    /// An empty set on a tree of order 6.
    pub fn new() -> (set: Self)
        ensures
            set.wf(),
            set.spec_order() == 6,
            set.elems() == Seq::<K>::empty(),
    {
        let set = CroBTreeSet { tree: CroBTree::new() };
        assert(set.elems() =~= Seq::<K>::empty());
        set
    }

    /// An empty set on a tree of the given order, which is at least 3.
    pub fn with_order(order: usize) -> (set: Self)
        requires
            order >= 3,
        ensures
            set.wf(),
            set.spec_order() == order,
            set.elems() == Seq::<K>::empty(),
    {
        let set = CroBTreeSet { tree: CroBTree::with_order(order) };
        assert(set.elems() =~= Seq::<K>::empty());
        set
    }

    /// The number of keys.
    pub fn len(&self) -> (n: usize)
        requires
            self.wf(),
        ensures
            n == self.elems().len(),
    {
        self.tree.len()
    }

    /// Whether the set holds no key.
    pub fn is_empty(&self) -> (b: bool)
        requires
            self.wf(),
        ensures
            b == (self.elems().len() == 0),
    {
        self.tree.is_empty()
    }

    /// Drops every key. The order stays.
    pub fn wipe(&mut self)
        requires
            old(self).wf(),
        ensures
            final(self).wf(),
            final(self).spec_order() == old(self).spec_order(),
            final(self).elems() == Seq::<K>::empty(),
    {
        self.tree.wipe();
        assert(self.elems() =~= Seq::<K>::empty());
    }

    /// Adds `key`. Returns whether the set did not have it.
    pub fn insert(&mut self, key: K) -> (fresh: bool)
        requires
            total_order::<K>(),
            old(self).wf(),
            old(self).elems().len() < usize::MAX,
        ensures
            final(self).wf(),
            final(self).spec_order() == old(self).spec_order(),
            final(self)@ == old(self)@.insert(key),
            fresh == !old(self)@.contains(key),
            final(self).elems().len() == if fresh {
                old(self).elems().len() + 1
            } else {
                old(self).elems().len()
            },
    {
        let ghost before = self.tree.entries();
        let prev = self.tree.insert(key, ());
        proof {
            self.tree.lemma_entries_ascend();
            lemma_keys_of(before, key);
            assert forall|k: K| self@.contains(k) == old(self)@.insert(key).contains(k) by {
                old(self).tree.lemma_entries_ascend();
                lemma_find_put(before, key, (), k);
                lemma_keys_of(before, k);
                lemma_keys_of(self.tree.entries(), k);
            }
            assert(self@ =~= old(self)@.insert(key));
        }
        prev.is_none()
    }

    /// Whether the set has `key`.
    pub fn contains(&self, key: &K) -> (b: bool)
        requires
            total_order::<K>(),
            self.wf(),
        ensures
            b == self@.contains(*key),
    {
        proof {
            lemma_keys_of(self.tree.entries(), *key);
        }
        self.tree.contains_key(key)
    }

    /// The keys of the set, borrowed, in ascending order.
    fn collect_keys(&self) -> (keys: CroVec<&K>)
        requires
            self.wf(),
        ensures
            keys.wf(),
            derefs(keys@) == self.elems(),
    {
        let pairs = self.tree.iter();
        let n: usize = pairs.size();
        let mut keys: CroVec<&K> = CroVec::with_cap(n);
        let mut i: usize = 0;
        while i < n
            invariant
                i <= n,
                n == pairs@.len(),
                keys.wf(),
                keys@.len() == i,
                forall|j: int| 0 <= j < i ==> #[trigger] keys@[j] == pairs@[j].0,
            decreases n - i,
        {
            let pair = pairs.get(i);
            keys.push(pair.0);
            i = i + 1;
        }
        assert(derefs(keys@) =~= keys_of(unref(pairs@)));
        keys
    }

    /// A cursor over the keys, in ascending order.
    pub fn iter(&self) -> (it: CroBTreeSetIter<'_, K>)
        requires
            self.wf(),
        ensures
            it.wf(),
            it.remaining() == self.elems(),
    {
        let items = self.collect_keys();
        let it = CroBTreeSetIter { items, index: 0 };
        assert(it.remaining() =~= self.elems());
        it
    }
}

/// A cursor over borrowed keys in ascending order. It can hand them out
/// from either end.
pub struct CroBTreeSetIter<'a, K> {
    items: CroVec<&'a K>,
    index: usize,
}

impl<'a, K> CroBTreeSetIter<'a, K> {
    /// The keys that the cursor has not handed out yet.
    pub closed spec fn remaining(&self) -> Seq<K> {
        derefs(self.items@.subrange(self.index as int, self.items@.len() as int))
    }

    /// The invariant of the cursor: its position is within its keys.
    pub closed spec fn wf(&self) -> bool {
        self.items.wf() && self.index <= self.items@.len()
    }

    /// Hands out the next key from the front, or `None` when none is left.
    pub fn next(&mut self) -> (r: Option<&'a K>)
        requires
            old(self).wf(),
        ensures
            final(self).wf(),
            old(self).remaining().len() == 0 ==> r.is_none(),
            old(self).remaining().len() == 0 ==> final(self).remaining() == old(self).remaining(),
            old(self).remaining().len() > 0 ==> r == Some(&old(self).remaining()[0]),
            old(self).remaining().len() > 0 ==> final(self).remaining() == old(self).remaining().drop_first(),
    {
        if self.index < self.items.size() {
            let item: &'a K = *self.items.get(self.index);
            self.index = self.index + 1;
            assert(self.remaining() =~= old(self).remaining().drop_first());
            Some(item)
        } else {
            None
        }
    }

    /// Hands out the next key from the back, or `None` when none is left.
    pub fn next_back(&mut self) -> (r: Option<&'a K>)
        requires
            old(self).wf(),
        ensures
            final(self).wf(),
            old(self).remaining().len() == 0 ==> r.is_none(),
            old(self).remaining().len() == 0 ==> final(self).remaining() == old(self).remaining(),
            old(self).remaining().len() > 0 ==> r == Some(&old(self).remaining().last())
                && final(self).remaining() == old(self).remaining().drop_last(),
    {
        if self.index < self.items.size() {
            let item: &'a K = self.items.pop().unwrap();
            assert(self.remaining() =~= old(self).remaining().drop_last());
            Some(item)
        } else {
            None
        }
    }
}

/// A cursor over owned keys in ascending order.
pub struct CroBTreeSetIntoIter<K> {
    items: CroVec<K>,
    index: usize,
}

impl<K> CroBTreeSetIntoIter<K> {
    /// The keys that the cursor has not handed out yet.
    pub closed spec fn remaining(&self) -> Seq<K> {
        self.items@
    }

    /// The invariant of the cursor.
    pub closed spec fn wf(&self) -> bool {
        self.items.wf() && self.index == 0
    }

    /// Hands out the next key, or `None` when none is left.
    pub fn next(&mut self) -> (r: Option<K>)
        requires
            old(self).wf(),
        ensures
            final(self).wf(),
            old(self).remaining().len() == 0 ==> r.is_none(),
            old(self).remaining().len() == 0 ==> final(self).remaining() == old(self).remaining(),
            old(self).remaining().len() > 0 ==> r == Some(old(self).remaining()[0]),
            old(self).remaining().len() > 0 ==> final(self).remaining() == old(self).remaining().drop_first(),
    {
        if self.index < self.items.size() {
            let item = self.items.remove(self.index);
            assert(self.remaining() =~= old(self).remaining().drop_first());
            Some(item)
        } else {
            None
        }
    }
}

/// One end of a range of keys.
pub enum Edge<'a, K> {
    /// The range reaches to this key and holds it.
    Included(&'a K),
    /// The range reaches to this key and does not hold it.
    Excluded(&'a K),
    /// The range has no end on this side.
    Unbounded,
}

/// `key` lies in the range from `lower` to `upper`.
pub open spec fn within<K: PartialOrd>(lower: Edge<K>, upper: Edge<K>, key: K) -> bool {
    &&& match lower {
        Edge::Included(start) => !lt(key, *start),
        Edge::Excluded(start) => lt(*start, key),
        Edge::Unbounded => true,
    }
    &&& match upper {
        Edge::Included(end) => !lt(*end, key),
        Edge::Excluded(end) => lt(key, *end),
        Edge::Unbounded => true,
    }
}

/// Decides whether `key` lies in the range from `lower` to `upper`.
pub fn in_range<K: Ord>(lower: &Edge<K>, upper: &Edge<K>, key: &K) -> (b: bool)
    requires
        total_order::<K>(),
    ensures
        b == within(*lower, *upper, *key),
{
    let lower_ok: bool = match lower {
        Edge::Included(start) => !is_lt(key, *start),
        Edge::Excluded(start) => is_lt(*start, key),
        Edge::Unbounded => true,
    };
    let upper_ok: bool = match upper {
        Edge::Included(end) => !is_lt(*end, key),
        Edge::Excluded(end) => is_lt(key, *end),
        Edge::Unbounded => true,
    };
    lower_ok && upper_ok
}

/// The keys of `s` that `keep` holds, in their order.
pub open spec fn chosen<K>(s: Seq<K>, keep: spec_fn(K) -> bool) -> Seq<K>
    decreases s.len(),
{
    if s.len() == 0 {
        Seq::empty()
    } else if keep(s.last()) {
        chosen(s.drop_last(), keep).push(s.last())
    } else {
        chosen(s.drop_last(), keep)
    }
}

impl<K: Ord> CroBTreeSet<K> {
    /// Moves every key out of the set, in ascending order, and leaves the
    /// set empty.
    fn take_all(&mut self) -> (keys: CroVec<K>)
        requires
            old(self).wf(),
        ensures
            final(self).wf(),
            final(self).spec_order() == old(self).spec_order(),
            final(self).elems() == Seq::<K>::empty(),
            keys.wf(),
            keys@ == old(self).elems(),
    {
        let mut pairs = self.tree.drain();
        let ghost all = pairs@;
        let n: usize = pairs.size();
        let mut backward: CroVec<K> = CroVec::with_cap(n);
        while pairs.size() > 0
            invariant
                pairs.wf(),
                backward.wf(),
                pairs@.len() <= all.len(),
                all.len() == n,
                pairs@ == all.subrange(0, pairs@.len() as int),
                backward@ == keys_of(all).reverse().subrange(0, all.len() - pairs@.len()),
            decreases pairs@.len(),
        {
            let ghost r = pairs@.len() as int;
            let pair = pairs.pop().unwrap();
            backward.push(pair.0);
            assert(pairs@ =~= all.subrange(0, r - 1));
            assert(backward@ =~= keys_of(all).reverse().subrange(0, all.len() - (r - 1)));
        }
        let mut keys: CroVec<K> = CroVec::with_cap(n);
        let ghost rev = backward@;
        assert(rev =~= keys_of(all).reverse());
        while backward.size() > 0
            invariant
                backward.wf(),
                keys.wf(),
                rev.len() == n,
                backward@.len() <= rev.len(),
                backward@ == rev.subrange(0, backward@.len() as int),
                keys@ == rev.reverse().subrange(0, rev.len() - backward@.len()),
            decreases backward@.len(),
        {
            let ghost r = backward@.len() as int;
            let key = backward.pop().unwrap();
            keys.push(key);
            assert(backward@ =~= rev.subrange(0, r - 1));
            assert(keys@ =~= rev.reverse().subrange(0, rev.len() - (r - 1)));
        }
        assert(keys@ =~= keys_of(all));
        assert(self.elems() =~= Seq::<K>::empty());
        keys
    }

    /// Puts back into the empty set the keys of `keys` that `keep` holds,
    /// and hands back the last key that it does not hold, if there is one.
    fn refill(&mut self, keys: CroVec<K>, skip: &K) -> (left_out: Option<K>)
        requires
            total_order::<K>(),
            old(self).wf(),
            old(self).elems().len() == 0,
            keys.wf(),
        ensures
            final(self).wf(),
            final(self).spec_order() == old(self).spec_order(),
            final(self)@ == Set::new(|k: K| keys@.contains(k) && k != *skip),
            left_out == if keys@.contains(*skip) {
                Some(*skip)
            } else {
                None
            },
            final(self).elems().len() + (if left_out.is_some() {
                1nat
            } else {
                0nat
            }) <= keys@.len(),
    {
        let mut keys = keys;
        let ghost all = keys@;
        let total: usize = keys.size();
        let mut left_out: Option<K> = None;
        assert(self@ =~= Set::<K>::empty());
        while keys.size() > 0
            invariant
                total_order::<K>(),
                all.len() == total,
                self.wf(),
                keys.wf(),
                self.spec_order() == old(self).spec_order(),
                keys@.len() <= all.len(),
                keys@ == all.subrange(0, keys@.len() as int),
                self.elems().len() + (if left_out.is_some() {
                    1nat
                } else {
                    0nat
                }) <= all.len() - keys@.len(),
                forall|k: K|
                    self@.contains(k) <==> k != *skip && exists|p: int|
                        keys@.len() <= p < all.len() && #[trigger] all[p] == k,
                left_out == if exists|p: int|
                    keys@.len() <= p < all.len() && #[trigger] all[p] == *skip {
                    Some(*skip)
                } else {
                    None
                },
            decreases keys@.len(),
        {
            let ghost r = keys@.len() as int;
            let ghost before = self@;
            let key = keys.pop().unwrap();
            assert(keys@ =~= all.subrange(0, r - 1));
            assert(all[r - 1] == key);
            if is_same(&key, skip) {
                left_out = Some(key);
                assert forall|k: K|
                    self@.contains(k) <==> k != *skip && exists|p: int|
                        r - 1 <= p < all.len() && #[trigger] all[p] == k by {
                    if k != *skip && exists|p: int| r - 1 <= p < all.len() && #[trigger] all[p] == k {
                        let p = choose|p: int| r - 1 <= p < all.len() && #[trigger] all[p] == k;
                        assert(r <= p < all.len() && all[p] == k);
                    }
                    if before.contains(k) {
                        let p = choose|p: int| r <= p < all.len() && #[trigger] all[p] == k;
                        assert(r - 1 <= p < all.len() && all[p] == k);
                    }
                }
            } else {
                let _ = self.insert(key);
                assert forall|k: K|
                    self@.contains(k) <==> k != *skip && exists|p: int|
                        r - 1 <= p < all.len() && #[trigger] all[p] == k by {
                    if k != *skip && exists|p: int| r - 1 <= p < all.len() && #[trigger] all[p] == k {
                        let p = choose|p: int| r - 1 <= p < all.len() && #[trigger] all[p] == k;
                        if p != r - 1 {
                            assert(r <= p < all.len() && all[p] == k);
                        }
                    }
                    if before.contains(k) {
                        let p = choose|p: int| r <= p < all.len() && #[trigger] all[p] == k;
                        assert(r - 1 <= p < all.len() && all[p] == k);
                    }
                }
                proof {
                    if exists|p: int| r - 1 <= p < all.len() && #[trigger] all[p] == *skip {
                        let p = choose|p: int|
                            r - 1 <= p < all.len() && #[trigger] all[p] == *skip;
                        assert(r <= p < all.len() && all[p] == *skip);
                    }
                }
            }
        }
        proof {
            assert forall|k: K| self@.contains(k) == (all.contains(k) && k != *skip) by {
                if all.contains(k) {
                    let p = choose|p: int| 0 <= p < all.len() && all[p] == k;
                    assert(0 <= p < all.len() && all[p] == k);
                }
            }
            assert(self@ =~= Set::new(|k: K| all.contains(k) && k != *skip));
            if all.contains(*skip) {
                let p = choose|p: int| 0 <= p < all.len() && all[p] == *skip;
                assert(0 <= p < all.len() && all[p] == *skip);
            }
        }
        left_out
    }

    /// Removes `key` and hands it back, if the set has it.
    pub fn take(&mut self, key: &K) -> (r: Option<K>)
        requires
            total_order::<K>(),
            old(self).wf(),
        ensures
            final(self).wf(),
            final(self).spec_order() == old(self).spec_order(),
            final(self)@ == old(self)@.remove(*key),
            r == if old(self)@.contains(*key) {
                Some(*key)
            } else {
                None
            },
    {
        let keys = self.take_all();
        let r = self.refill(keys, key);
        assert(self@ =~= old(self)@.remove(*key));
        r
    }

    /// Removes `key`. Returns whether the set had it.
    pub fn remove(&mut self, key: &K) -> (had: bool)
        requires
            total_order::<K>(),
            old(self).wf(),
        ensures
            final(self).wf(),
            final(self).spec_order() == old(self).spec_order(),
            final(self)@ == old(self)@.remove(*key),
            had == old(self)@.contains(*key),
    {
        self.take(key).is_some()
    }

    /// Puts `key` in place of the key of the set that equals it, and hands
    /// that one back, if there is one.
    pub fn replace(&mut self, key: K) -> (r: Option<K>)
        requires
            total_order::<K>(),
            old(self).wf(),
            old(self).elems().len() < usize::MAX,
        ensures
            final(self).wf(),
            final(self).spec_order() == old(self).spec_order(),
            final(self)@ == old(self)@.insert(key),
            r == if old(self)@.contains(key) {
                Some(key)
            } else {
                None
            },
    {
        let keys = self.take_all();
        let r = self.refill(keys, &key);
        let _ = self.insert(key);
        assert(self@ =~= old(self)@.insert(key));
        r
    }
}

impl<K: Ord> CroBTreeSet<K> {
    /// The key of the set that equals `key`, if there is one.
    pub fn get(&self, key: &K) -> (r: Option<&K>)
        requires
            total_order::<K>(),
            self.wf(),
        ensures
            r == if self@.contains(*key) {
                Some(key)
            } else {
                None
            },
    {
        let keys = self.collect_keys();
        let n: usize = keys.size();
        let mut i: usize = 0;
        while i < n
            invariant
                i <= n,
                n == keys@.len(),
                total_order::<K>(),
                derefs(keys@) == self.elems(),
                forall|j: int| 0 <= j < i ==> #[trigger] self.elems()[j] != *key,
            decreases n - i,
        {
            let item: &K = *keys.get(i);
            assert(*item == derefs(keys@)[i as int]);
            if is_same(item, key) {
                assert(self.elems()[i as int] == *key);
                return Some(item);
            }
            i = i + 1;
        }
        None
    }

    /// The smallest key, if there is one.
    pub fn first(&self) -> (r: Option<&K>)
        requires
            self.wf(),
        ensures
            r == if self.elems().len() > 0 {
                Some(&self.elems()[0])
            } else {
                None
            },
    {
        let keys = self.collect_keys();
        if keys.size() > 0 {
            let item: &K = *keys.get(0);
            assert(*item == derefs(keys@)[0]);
            Some(item)
        } else {
            None
        }
    }

    /// The largest key, if there is one.
    pub fn last(&self) -> (r: Option<&K>)
        requires
            self.wf(),
        ensures
            r == if self.elems().len() > 0 {
                Some(&self.elems().last())
            } else {
                None
            },
    {
        let keys = self.collect_keys();
        let n: usize = keys.size();
        if n > 0 {
            let item: &K = *keys.get(n - 1);
            assert(*item == derefs(keys@)[n - 1]);
            Some(item)
        } else {
            None
        }
    }

    /// Adds every key of `items`.
    pub fn extend(&mut self, items: CroVec<K>)
        requires
            total_order::<K>(),
            old(self).wf(),
            items.wf(),
            old(self).elems().len() + items@.len() <= usize::MAX,
        ensures
            final(self).wf(),
            final(self).spec_order() == old(self).spec_order(),
            final(self)@ == old(self)@.union(items@.to_set()),
            final(self).elems().len() <= old(self).elems().len() + items@.len(),
    {
        let mut items = items;
        let ghost all = items@;
        assert(all.subrange(0, all.len() as int) =~= all);
        while items.size() > 0
            invariant
                total_order::<K>(),
                self.wf(),
                items.wf(),
                self.spec_order() == old(self).spec_order(),
                items@.len() <= all.len(),
                items@ == all.subrange(0, items@.len() as int),
                old(self).elems().len() + all.len() <= usize::MAX,
                self.elems().len() <= old(self).elems().len() + all.len() - items@.len(),
                forall|k: K|
                    self@.contains(k) <==> old(self)@.contains(k) || exists|p: int|
                        items@.len() <= p < all.len() && #[trigger] all[p] == k,
            decreases items@.len(),
        {
            let ghost r = items@.len() as int;
            let ghost before = self@;
            let key = items.pop().unwrap();
            assert(items@ =~= all.subrange(0, r - 1));
            assert(all[r - 1] == key);
            let _ = self.insert(key);
            assert forall|k: K|
                self@.contains(k) <==> old(self)@.contains(k) || exists|p: int|
                    r - 1 <= p < all.len() && #[trigger] all[p] == k by {
                if exists|p: int| r - 1 <= p < all.len() && #[trigger] all[p] == k {
                    let p = choose|p: int| r - 1 <= p < all.len() && #[trigger] all[p] == k;
                    if p != r - 1 {
                        assert(r <= p < all.len() && all[p] == k);
                    }
                }
                if before.contains(k) && !old(self)@.contains(k) {
                    let p = choose|p: int| r <= p < all.len() && #[trigger] all[p] == k;
                    assert(r - 1 <= p < all.len() && all[p] == k);
                }
            }
        }
        proof {
            assert forall|k: K|
                self@.contains(k) == old(self)@.union(all.to_set()).contains(k) by {
                if all.contains(k) {
                    let p = choose|p: int| 0 <= p < all.len() && all[p] == k;
                    assert(0 <= p < all.len() && all[p] == k);
                }
            }
            assert(self@ =~= old(self)@.union(all.to_set()));
        }
    }

    /// Removes and returns the smallest key, if there is one.
    pub fn pop_first(&mut self) -> (r: Option<K>)
        requires
            total_order::<K>(),
            old(self).wf(),
        ensures
            final(self).wf(),
            final(self).spec_order() == old(self).spec_order(),
            old(self).elems().len() == 0 ==> r.is_none() && final(self)@ == old(self)@,
            old(self).elems().len() > 0 ==> r == Some(old(self).elems()[0]) && final(self)@
                == old(self)@.remove(old(self).elems()[0]),
    {
        proof {
            old(self).lemma_elems_ascend();
        }
        let mut keys = self.take_all();
        let ghost all = keys@;
        if keys.size() == 0 {
            assert(self@ =~= old(self)@);
            return None;
        }
        let first = keys.remove(0);
        self.extend(keys);
        proof {
            assert forall|k: K| self@.contains(k) == old(self)@.remove(first).contains(k) by {
                if all.remove(0).contains(k) {
                    let p = choose|p: int| 0 <= p < all.remove(0).len() && all.remove(0)[p] == k;
                    assert(all[p + 1] == k);
                    assert(lt(all[0], all[p + 1]));
                }
                if all.contains(k) && k != first {
                    let p = choose|p: int| 0 <= p < all.len() && all[p] == k;
                    assert(all.remove(0)[p - 1] == k);
                }
            }
            assert(self@ =~= old(self)@.remove(first));
        }
        Some(first)
    }

    /// Removes and returns the largest key, if there is one.
    pub fn pop_last(&mut self) -> (r: Option<K>)
        requires
            total_order::<K>(),
            old(self).wf(),
        ensures
            final(self).wf(),
            final(self).spec_order() == old(self).spec_order(),
            old(self).elems().len() == 0 ==> r.is_none() && final(self)@ == old(self)@,
            old(self).elems().len() > 0 ==> r == Some(old(self).elems().last()) && final(self)@
                == old(self)@.remove(old(self).elems().last()),
    {
        proof {
            old(self).lemma_elems_ascend();
        }
        let mut keys = self.take_all();
        let ghost all = keys@;
        if keys.size() == 0 {
            assert(self@ =~= old(self)@);
            return None;
        }
        let last = keys.pop().unwrap();
        self.extend(keys);
        proof {
            assert forall|k: K| self@.contains(k) == old(self)@.remove(last).contains(k) by {
                if all.drop_last().contains(k) {
                    let p = choose|p: int|
                        0 <= p < all.drop_last().len() && all.drop_last()[p] == k;
                    assert(all[p] == k);
                    assert(lt(all[p], all[all.len() - 1]));
                }
                if all.contains(k) && k != last {
                    let p = choose|p: int| 0 <= p < all.len() && all[p] == k;
                    assert(all.drop_last()[p] == k);
                }
            }
            assert(self@ =~= old(self)@.remove(last));
        }
        Some(last)
    }

    /// A cursor over the keys that lie in the range from `lower` to
    /// `upper`, in ascending order.
    pub fn range<'a>(&'a self, lower: Edge<'a, K>, upper: Edge<'a, K>) -> (it: CroBTreeSetIter<
        'a,
        K,
    >)
        requires
            total_order::<K>(),
            self.wf(),
        ensures
            it.wf(),
            it.remaining() == chosen(self.elems(), |k: K| within(lower, upper, k)),
    {
        let keys = self.collect_keys();
        let n: usize = keys.size();
        let ghost keep = |k: K| within(lower, upper, k);
        let mut items: CroVec<&'a K> = CroVec::with_cap(0);
        let mut i: usize = 0;
        assert(derefs(items@) =~= chosen(self.elems().subrange(0, 0), keep));
        while i < n
            invariant
                i <= n,
                n == keys@.len(),
                total_order::<K>(),
                items.wf(),
                items@.len() <= i,
                derefs(keys@) == self.elems(),
                keep == (|k: K| within(lower, upper, k)),
                derefs(items@) == chosen(self.elems().subrange(0, i as int), keep),
            decreases n - i,
        {
            let item: &'a K = *keys.get(i);
            let ghost prev = items@;
            proof {
                assert(*item == derefs(keys@)[i as int]);
                assert(self.elems().subrange(0, i + 1).drop_last() =~= self.elems().subrange(
                    0,
                    i as int,
                ));
            }
            if in_range(&lower, &upper, item) {
                items.push(item);
                assert(derefs(items@) =~= derefs(prev).push(*item));
            }
            i = i + 1;
        }
        assert(self.elems().subrange(0, n as int) =~= self.elems());
        let it = CroBTreeSetIter { items, index: 0 };
        assert(it.remaining() =~= derefs(items@));
        it
    }

    /// Keeps the keys for which `pred` answers `true` and drops the others.
    /// `pred` is asked once for each key, in ascending order.
    pub fn retain<F: Fn(&K) -> bool>(&mut self, pred: F)
        requires
            total_order::<K>(),
            old(self).wf(),
            forall|i: int|
                0 <= i < old(self).elems().len() ==> call_requires(pred, (&old(self).elems()[i],)),
        ensures
            final(self).wf(),
            final(self).spec_order() == old(self).spec_order(),
            exists|keep: Seq<bool>|
                {
                    &&& keep.len() == old(self).elems().len()
                    &&& forall|i: int|
                        0 <= i < keep.len() ==> call_ensures(
                            pred,
                            (&old(self).elems()[i],),
                            #[trigger] keep[i],
                        )
                    &&& final(self)@ == crate::sequences::vec::kept(
                        old(self).elems(),
                        keep,
                    ).to_set()
                },
    {
        let mut keys = self.take_all();
        keys.retain(pred);
        proof {
            crate::sequences::vec::lemma_kept_len(
                old(self).elems(),
                choose|keep: Seq<bool>|
                    {
                        &&& keep.len() == old(self).elems().len()
                        &&& forall|i: int|
                            0 <= i < keep.len() ==> call_ensures(
                                pred,
                                (&old(self).elems()[i],),
                                #[trigger] keep[i],
                            )
                        &&& keys@ == crate::sequences::vec::kept(old(self).elems(), keep)
                    },
            );
        }
        self.extend(keys);
        proof {
            let keep = choose|keep: Seq<bool>|
                {
                    &&& keep.len() == old(self).elems().len()
                    &&& forall|i: int|
                        0 <= i < keep.len() ==> call_ensures(
                            pred,
                            (&old(self).elems()[i],),
                            #[trigger] keep[i],
                        )
                    &&& keys@ == crate::sequences::vec::kept(old(self).elems(), keep)
                };
            assert(self@ =~= crate::sequences::vec::kept(old(self).elems(), keep).to_set());
        }
    }

    /// Moves every key of `other` into this set and leaves `other` empty.
    pub fn append(&mut self, other: &mut CroBTreeSet<K>)
        requires
            total_order::<K>(),
            old(self).wf(),
            old(other).wf(),
            old(self).elems().len() + old(other).elems().len() <= usize::MAX,
        ensures
            final(self).wf(),
            final(other).wf(),
            final(self).spec_order() == old(self).spec_order(),
            final(other).spec_order() == old(other).spec_order(),
            final(self)@ == old(self)@.union(old(other)@),
            final(other).elems() == Seq::<K>::empty(),
    {
        let keys = other.take_all();
        self.extend(keys);
        assert(self@ =~= old(self)@.union(old(other)@));
    }

    /// Splits the set at `key`: the keys below `key` stay, and the others
    /// leave as a new set on a tree of the same order.
    pub fn split_off(&mut self, key: &K) -> (upper: CroBTreeSet<K>)
        requires
            total_order::<K>(),
            old(self).wf(),
        ensures
            final(self).wf(),
            upper.wf(),
            final(self).spec_order() == old(self).spec_order(),
            upper.spec_order() == old(self).spec_order(),
            final(self)@ == old(self)@.filter(|k: K| lt(k, *key)),
            upper@ == old(self)@.filter(|k: K| !lt(k, *key)),
    {
        proof {
            old(self).lemma_elems_ascend();
        }
        let mut keys = self.take_all();
        let mut upper = CroBTreeSet::with_order(self.tree.order());
        let ghost all = keys@;
        let total: usize = keys.size();
        assert(self@ =~= Set::<K>::empty());
        assert(upper@ =~= Set::<K>::empty());
        while keys.size() > 0
            invariant
                total_order::<K>(),
                self.wf(),
                upper.wf(),
                keys.wf(),
                all.len() == total,
                self.spec_order() == old(self).spec_order(),
                upper.spec_order() == old(self).spec_order(),
                keys@.len() <= all.len(),
                keys@ == all.subrange(0, keys@.len() as int),
                self.elems().len() <= all.len() - keys@.len(),
                upper.elems().len() <= all.len() - keys@.len(),
                forall|k: K|
                    #![trigger self@.contains(k)]
                    self@.contains(k) <==> lt(k, *key) && exists|p: int|
                        keys@.len() <= p < all.len() && #[trigger] all[p] == k,
                forall|k: K|
                    #![trigger upper@.contains(k)]
                    upper@.contains(k) <==> !lt(k, *key) && exists|p: int|
                        keys@.len() <= p < all.len() && #[trigger] all[p] == k,
            decreases keys@.len(),
        {
            let ghost r = keys@.len() as int;
            let ghost lower_before = self@;
            let ghost upper_before = upper@;
            let item = keys.pop().unwrap();
            assert(keys@ =~= all.subrange(0, r - 1));
            assert(all[r - 1] == item);
            if is_lt(&item, key) {
                let _ = self.insert(item);
            } else {
                let _ = upper.insert(item);
            }
            proof {
                assert forall|k: K|
                    #![trigger self@.contains(k)]
                    self@.contains(k) <==> lt(k, *key) && exists|p: int|
                        r - 1 <= p < all.len() && #[trigger] all[p] == k by {
                    if exists|p: int| r - 1 <= p < all.len() && #[trigger] all[p] == k {
                        let p = choose|p: int| r - 1 <= p < all.len() && #[trigger] all[p] == k;
                        if p != r - 1 {
                            assert(r <= p < all.len() && all[p] == k);
                        }
                    }
                    if lower_before.contains(k) {
                        let p = choose|p: int| r <= p < all.len() && #[trigger] all[p] == k;
                        assert(r - 1 <= p < all.len() && all[p] == k);
                    }
                }
                assert forall|k: K|
                    #![trigger upper@.contains(k)]
                    upper@.contains(k) <==> !lt(k, *key) && exists|p: int|
                        r - 1 <= p < all.len() && #[trigger] all[p] == k by {
                    if exists|p: int| r - 1 <= p < all.len() && #[trigger] all[p] == k {
                        let p = choose|p: int| r - 1 <= p < all.len() && #[trigger] all[p] == k;
                        if p != r - 1 {
                            assert(r <= p < all.len() && all[p] == k);
                        }
                    }
                    if upper_before.contains(k) {
                        let p = choose|p: int| r <= p < all.len() && #[trigger] all[p] == k;
                        assert(r - 1 <= p < all.len() && all[p] == k);
                    }
                }
            }
        }
        proof {
            assert forall|k: K|
                self@.contains(k) == old(self)@.filter(|k: K| lt(k, *key)).contains(k) by {
                if all.contains(k) {
                    let p = choose|p: int| 0 <= p < all.len() && all[p] == k;
                    assert(0 <= p < all.len() && all[p] == k);
                }
            }
            assert forall|k: K|
                upper@.contains(k) == old(self)@.filter(|k: K| !lt(k, *key)).contains(k) by {
                if all.contains(k) {
                    let p = choose|p: int| 0 <= p < all.len() && all[p] == k;
                    assert(0 <= p < all.len() && all[p] == k);
                }
            }
            assert(self@ =~= old(self)@.filter(|k: K| lt(k, *key)));
            assert(upper@ =~= old(self)@.filter(|k: K| !lt(k, *key)));
        }
        upper
    }

    /// Whether every key of this set is a key of `other`.
    pub fn is_subset(&self, other: &CroBTreeSet<K>) -> (b: bool)
        requires
            total_order::<K>(),
            self.wf(),
            other.wf(),
        ensures
            b == self@.subset_of(other@),
    {
        let keys = self.collect_keys();
        let n: usize = keys.size();
        let mut i: usize = 0;
        while i < n
            invariant
                i <= n,
                n == keys@.len(),
                total_order::<K>(),
                other.wf(),
                derefs(keys@) == self.elems(),
                forall|j: int| 0 <= j < i ==> other@.contains(#[trigger] self.elems()[j]),
            decreases n - i,
        {
            let item: &K = *keys.get(i);
            assert(*item == derefs(keys@)[i as int]);
            if !other.contains(item) {
                assert(self@.contains(self.elems()[i as int]));
                return false;
            }
            i = i + 1;
        }
        proof {
            assert forall|k: K| self@.contains(k) implies other@.contains(k) by {
                let p = choose|p: int| 0 <= p < self.elems().len() && self.elems()[p] == k;
                assert(other@.contains(self.elems()[p]));
            }
        }
        true
    }

    /// Whether every key of `other` is a key of this set.
    pub fn is_superset(&self, other: &CroBTreeSet<K>) -> (b: bool)
        requires
            total_order::<K>(),
            self.wf(),
            other.wf(),
        ensures
            b == other@.subset_of(self@),
    {
        other.is_subset(self)
    }

    /// Whether no key of this set is a key of `other`.
    pub fn is_disjoint(&self, other: &CroBTreeSet<K>) -> (b: bool)
        requires
            total_order::<K>(),
            self.wf(),
            other.wf(),
        ensures
            b == self@.disjoint(other@),
    {
        let keys = self.collect_keys();
        let n: usize = keys.size();
        let mut i: usize = 0;
        while i < n
            invariant
                i <= n,
                n == keys@.len(),
                total_order::<K>(),
                other.wf(),
                derefs(keys@) == self.elems(),
                forall|j: int| 0 <= j < i ==> !other@.contains(#[trigger] self.elems()[j]),
            decreases n - i,
        {
            let item: &K = *keys.get(i);
            assert(*item == derefs(keys@)[i as int]);
            if other.contains(item) {
                assert(self@.contains(self.elems()[i as int]));
                return false;
            }
            i = i + 1;
        }
        proof {
            assert forall|k: K| self@.contains(k) implies !other@.contains(k) by {
                let p = choose|p: int| 0 <= p < self.elems().len() && self.elems()[p] == k;
                assert(!other@.contains(self.elems()[p]));
            }
        }
        true
    }

    /// Turns the set into a cursor over its keys, in ascending order.
    pub fn into_iter(self) -> (it: CroBTreeSetIntoIter<K>)
        requires
            self.wf(),
        ensures
            it.wf(),
            it.remaining() == self.elems(),
    {
        let mut set = self;
        let items = set.take_all();
        CroBTreeSetIntoIter { items, index: 0 }
    }
}

/// `k` is among the first `upto` keys of `s`.
pub open spec fn among<K>(s: Seq<K>, upto: int, k: K) -> bool {
    exists|p: int| 0 <= p < upto && #[trigger] s[p] == k
}

/// Whether a merge keeps a key, by where the key is: in the left sequence
/// alone, in both, or in the right sequence alone.
pub open spec fn selected(
    in_left: bool,
    in_right: bool,
    only_left: bool,
    both: bool,
    only_right: bool,
) -> bool {
    (in_left && !in_right && only_left) || (in_left && in_right && both) || (!in_left && in_right
        && only_right)
}

/// Every key of `r` is below the key at `i` in `s`, if there is one.
spec fn all_below<K: PartialOrd>(r: Seq<K>, upto: int, s: Seq<K>, i: int) -> bool {
    forall|t: int| 0 <= t < upto && i < s.len() ==> lt(#[trigger] r[t], s[i])
}

/// What the merge has kept of the first `i` left and `j` right keys.
spec fn merged_so_far<K>(
    r: Seq<K>,
    a: Seq<K>,
    i: int,
    b: Seq<K>,
    j: int,
    only_left: bool,
    both: bool,
    only_right: bool,
) -> bool {
    forall|k: K|
        #![trigger among(r, r.len() as int, k)]
        among(r, r.len() as int, k) <==> selected(
            among(a, i, k),
            among(b, j, k),
            only_left,
            both,
            only_right,
        )
}

/// One step of the merge: the smaller head, or both heads where they are
/// equal, are taken, and kept or not.
proof fn lemma_merge_step<K: PartialOrd>(
    r: Seq<K>,
    a: Seq<K>,
    i: int,
    b: Seq<K>,
    j: int,
    only_left: bool,
    both: bool,
    only_right: bool,
    take_left: bool,
    take_right: bool,
)
    requires
        total_order::<K>(),
        increasing(a),
        increasing(b),
        increasing(r),
        0 <= i <= a.len(),
        0 <= j <= b.len(),
        take_left || take_right,
        take_left ==> i < a.len(),
        take_right ==> j < b.len(),
        take_left && !take_right ==> j == b.len() || lt(a[i], b[j]),
        take_right && !take_left ==> i == a.len() || lt(b[j], a[i]),
        take_left && take_right ==> a[i] == b[j],
        all_below(r, r.len() as int, a, i),
        all_below(r, r.len() as int, b, j),
        all_below(a, i, b, j),
        all_below(b, j, a, i),
        merged_so_far(r, a, i, b, j, only_left, both, only_right),
    ensures
        ({
            let head = if take_left {
                a[i]
            } else {
                b[j]
            };
            let keep = (take_left && take_right && both) || (take_left && !take_right && only_left)
                || (!take_left && take_right && only_right);
            let r2 = if keep {
                r.push(head)
            } else {
                r
            };
            let i2 = if take_left {
                i + 1
            } else {
                i
            };
            let j2 = if take_right {
                j + 1
            } else {
                j
            };
            &&& increasing(r2)
            &&& all_below(r2, r2.len() as int, a, i2)
            &&& all_below(r2, r2.len() as int, b, j2)
            &&& all_below(a, i2, b, j2)
            &&& all_below(b, j2, a, i2)
            &&& merged_so_far(r2, a, i2, b, j2, only_left, both, only_right)
        }),
{
    let head = if take_left {
        a[i]
    } else {
        b[j]
    };
    let keep = (take_left && take_right && both) || (take_left && !take_right && only_left) || (
    !take_left && take_right && only_right);
    let r2 = if keep {
        r.push(head)
    } else {
        r
    };
    let i2 = if take_left {
        i + 1
    } else {
        i
    };
    let j2 = if take_right {
        j + 1
    } else {
        j
    };
    // the head is above everything kept and everything taken so far
    assert forall|t: int| 0 <= t < r.len() implies lt(#[trigger] r[t], head) by {}
    assert forall|t: int| 0 <= t < i implies lt(#[trigger] a[t], head) by {
        if take_left {
            assert(lt(a[t], a[i]));
        }
    }
    assert forall|t: int| 0 <= t < j implies lt(#[trigger] b[t], head) by {
        if take_right {
            assert(lt(b[t], b[j]));
        }
    }
    assert(increasing(r2)) by {
        assert forall|x: int, y: int| 0 <= x < y < r2.len() implies lt(
            #[trigger] r2[x],
            #[trigger] r2[y],
        ) by {
            if y < r.len() {
                assert(lt(r[x], r[y]));
            }
        }
    }
    // the next heads are above the head
    assert(i2 < a.len() ==> lt(head, a[i2])) by {
        if i2 < a.len() {
            if take_left {
                assert(lt(a[i], a[i + 1]));
            }
        }
    }
    assert(j2 < b.len() ==> lt(head, b[j2])) by {
        if j2 < b.len() {
            if take_right {
                assert(lt(b[j], b[j + 1]));
            }
        }
    }
    assert forall|t: int| 0 <= t < r2.len() && i2 < a.len() implies lt(
        #[trigger] r2[t],
        a[i2],
    ) by {
        if t < r.len() {
            lemma_le_chain(r[t], head, a[i2]);
        }
    }
    assert forall|t: int| 0 <= t < r2.len() && j2 < b.len() implies lt(
        #[trigger] r2[t],
        b[j2],
    ) by {
        if t < r.len() {
            lemma_le_chain(r[t], head, b[j2]);
        }
    }
    assert forall|t: int| 0 <= t < i2 && j2 < b.len() implies lt(#[trigger] a[t], b[j2]) by {
        if t < i {
            lemma_le_chain(a[t], head, b[j2]);
        }
    }
    assert forall|t: int| 0 <= t < j2 && i2 < a.len() implies lt(#[trigger] b[t], a[i2]) by {
        if t < j {
            lemma_le_chain(b[t], head, a[i2]);
        }
    }
    // and what is kept is what was to be kept
    assert forall|k: K|
        #![trigger among(r2, r2.len() as int, k)]
        among(r2, r2.len() as int, k) <==> selected(
            among(a, i2, k),
            among(b, j2, k),
            only_left,
            both,
            only_right,
        ) by {
        assert(among(r, r.len() as int, k) <==> selected(
            among(a, i, k),
            among(b, j, k),
            only_left,
            both,
            only_right,
        ));
        if k == head {
            lemma_le_chain(head, head, head);
            if among(r, r.len() as int, k) {
                let p = choose|p: int| 0 <= p < r.len() && #[trigger] r[p] == k;
                assert(lt(r[p], head));
            }
            if among(a, i, k) {
                let p = choose|p: int| 0 <= p < i && #[trigger] a[p] == k;
                assert(lt(a[p], head));
            }
            if among(b, j, k) {
                let p = choose|p: int| 0 <= p < j && #[trigger] b[p] == k;
                assert(lt(b[p], head));
            }
            if take_left {
                assert(a[i] == k);
            } else {
                if among(a, i2, k) {
                    let p = choose|p: int| 0 <= p < i2 && #[trigger] a[p] == k;
                    assert(lt(a[p], head));
                }
            }
            if take_right {
                assert(b[j] == k);
            } else {
                if among(b, j2, k) {
                    let p = choose|p: int| 0 <= p < j2 && #[trigger] b[p] == k;
                    assert(lt(b[p], head));
                }
            }
            if keep {
                assert(r2[r2.len() - 1] == k);
            } else {
                if among(r2, r2.len() as int, k) {
                    let p = choose|p: int| 0 <= p < r2.len() && #[trigger] r2[p] == k;
                    assert(lt(r[p], head));
                }
            }
        } else {
            if among(r2, r2.len() as int, k) {
                let p = choose|p: int| 0 <= p < r2.len() && #[trigger] r2[p] == k;
                assert(r[p] == k);
            }
            if among(r, r.len() as int, k) {
                let p = choose|p: int| 0 <= p < r.len() && #[trigger] r[p] == k;
                assert(r2[p] == k);
            }
            if among(a, i2, k) {
                let p = choose|p: int| 0 <= p < i2 && #[trigger] a[p] == k;
                assert(0 <= p < i && a[p] == k);
            }
            if among(a, i, k) {
                let p = choose|p: int| 0 <= p < i && #[trigger] a[p] == k;
                assert(0 <= p < i2 && a[p] == k);
            }
            if among(b, j2, k) {
                let p = choose|p: int| 0 <= p < j2 && #[trigger] b[p] == k;
                assert(0 <= p < j && b[p] == k);
            }
            if among(b, j, k) {
                let p = choose|p: int| 0 <= p < j && #[trigger] b[p] == k;
                assert(0 <= p < j2 && b[p] == k);
            }
        }
    }
}

/// Merges two ascending sequences of borrowed keys with two cursors, and
/// keeps the keys that are only in the left one, in both, or only in the
/// right one, as the three switches say.
fn merge_select<'a, K: Ord>(
    left: &CroVec<&'a K>,
    right: &CroVec<&'a K>,
    only_left: bool,
    both: bool,
    only_right: bool,
) -> (out: CroVec<&'a K>)
    requires
        total_order::<K>(),
        increasing(derefs(left@)),
        increasing(derefs(right@)),
        left@.len() + right@.len() <= usize::MAX,
    ensures
        out.wf(),
        increasing(derefs(out@)),
        forall|k: K|
            #![trigger derefs(out@).contains(k)]
            derefs(out@).contains(k) <==> selected(
                derefs(left@).contains(k),
                derefs(right@).contains(k),
                only_left,
                both,
                only_right,
            ),
{
    let n: usize = left.size();
    let m: usize = right.size();
    let ghost a = derefs(left@);
    let ghost b = derefs(right@);
    let mut out: CroVec<&'a K> = CroVec::with_cap(0);
    let mut i: usize = 0;
    let mut j: usize = 0;
    while i < n || j < m
        invariant
            total_order::<K>(),
            i <= n,
            j <= m,
            n == left@.len(),
            m == right@.len(),
            n + m <= usize::MAX,
            a == derefs(left@),
            b == derefs(right@),
            increasing(a),
            increasing(b),
            out.wf(),
            out@.len() <= i + j,
            increasing(derefs(out@)),
            all_below(derefs(out@), out@.len() as int, a, i as int),
            all_below(derefs(out@), out@.len() as int, b, j as int),
            all_below(a, i as int, b, j as int),
            all_below(b, j as int, a, i as int),
            merged_so_far(derefs(out@), a, i as int, b, j as int, only_left, both, only_right),
        decreases (n - i) + (m - j),
    {
        let ghost r = derefs(out@);
        let take_left: bool = i < n && (j >= m || !is_lt(*right.get(j), *left.get(i)));
        let take_right: bool = j < m && (i >= n || !is_lt(*left.get(i), *right.get(j)));
        proof {
            if i < n {
                assert(a[i as int] == *left@[i as int]);
            }
            if j < m {
                assert(b[j as int] == *right@[j as int]);
            }
            lemma_merge_step(
                r,
                a,
                i as int,
                b,
                j as int,
                only_left,
                both,
                only_right,
                take_left,
                take_right,
            );
        }
        if take_left && take_right {
            if both {
                out.push(*left.get(i));
            }
        } else if take_left {
            if only_left {
                out.push(*left.get(i));
            }
        } else {
            if only_right {
                out.push(*right.get(j));
            }
        }
        proof {
            let head = if take_left {
                a[i as int]
            } else {
                b[j as int]
            };
            assert(derefs(out@) =~= r || derefs(out@) =~= r.push(head));
        }
        if take_left {
            i = i + 1;
        }
        if take_right {
            j = j + 1;
        }
    }
    proof {
        let r = derefs(out@);
        assert forall|k: K|
            #![trigger r.contains(k)]
            r.contains(k) <==> selected(a.contains(k), b.contains(k), only_left, both, only_right) by {
            assert(among(r, r.len() as int, k) <==> selected(
                among(a, n as int, k),
                among(b, m as int, k),
                only_left,
                both,
                only_right,
            ));
            if r.contains(k) {
                let p = choose|p: int| 0 <= p < r.len() && r[p] == k;
                assert(0 <= p < r.len() && r[p] == k);
            }
            if a.contains(k) {
                let p = choose|p: int| 0 <= p < a.len() && a[p] == k;
                assert(0 <= p < n && a[p] == k);
            }
            if b.contains(k) {
                let p = choose|p: int| 0 <= p < b.len() && b[p] == k;
                assert(0 <= p < m && b[p] == k);
            }
        }
    }
    out
}

impl<K: Ord> CroBTreeSet<K> {
    /// A cursor over the keys that are in this set or in `other`, in
    /// ascending order, by a merge of the two with two cursors.
    pub fn union<'a>(&'a self, other: &'a CroBTreeSet<K>) -> (it: CroBTreeSetIter<'a, K>)
        requires
            total_order::<K>(),
            self.wf(),
            other.wf(),
            self.elems().len() + other.elems().len() <= usize::MAX,
        ensures
            it.wf(),
            increasing(it.remaining()),
            forall|k: K|
                #![trigger it.remaining().contains(k)]
                it.remaining().contains(k) <==> self@.contains(k) || other@.contains(k),
    {
        proof {
            self.lemma_elems_ascend();
            other.lemma_elems_ascend();
        }
        let left = self.collect_keys();
        let right = other.collect_keys();
        let items = merge_select(&left, &right, true, true, true);
        let it = CroBTreeSetIter { items, index: 0 };
        assert(it.remaining() =~= derefs(items@));
        it
    }

    /// A cursor over the keys that are in this set and in `other`, in
    /// ascending order, by a merge of the two with two cursors.
    pub fn intersection<'a>(&'a self, other: &'a CroBTreeSet<K>) -> (it: CroBTreeSetIter<'a, K>)
        requires
            total_order::<K>(),
            self.wf(),
            other.wf(),
            self.elems().len() + other.elems().len() <= usize::MAX,
        ensures
            it.wf(),
            increasing(it.remaining()),
            forall|k: K|
                #![trigger it.remaining().contains(k)]
                it.remaining().contains(k) <==> self@.contains(k) && other@.contains(k),
    {
        proof {
            self.lemma_elems_ascend();
            other.lemma_elems_ascend();
        }
        let left = self.collect_keys();
        let right = other.collect_keys();
        let items = merge_select(&left, &right, false, true, false);
        let it = CroBTreeSetIter { items, index: 0 };
        assert(it.remaining() =~= derefs(items@));
        it
    }

    /// A cursor over the keys that are in this set and not in `other`, in
    /// ascending order, by a merge of the two with two cursors.
    pub fn difference<'a>(&'a self, other: &'a CroBTreeSet<K>) -> (it: CroBTreeSetIter<'a, K>)
        requires
            total_order::<K>(),
            self.wf(),
            other.wf(),
            self.elems().len() + other.elems().len() <= usize::MAX,
        ensures
            it.wf(),
            increasing(it.remaining()),
            forall|k: K|
                #![trigger it.remaining().contains(k)]
                it.remaining().contains(k) <==> self@.contains(k) && !other@.contains(k),
    {
        proof {
            self.lemma_elems_ascend();
            other.lemma_elems_ascend();
        }
        let left = self.collect_keys();
        let right = other.collect_keys();
        let items = merge_select(&left, &right, true, false, false);
        let it = CroBTreeSetIter { items, index: 0 };
        assert(it.remaining() =~= derefs(items@));
        it
    }

    /// A cursor over the keys that are in one of this set and `other` and not
    /// in the other, in ascending order, by a merge of the two with two
    /// cursors.
    pub fn symmetric_difference<'a>(&'a self, other: &'a CroBTreeSet<K>) -> (it: CroBTreeSetIter<'a, K>)
        requires
            total_order::<K>(),
            self.wf(),
            other.wf(),
            self.elems().len() + other.elems().len() <= usize::MAX,
        ensures
            it.wf(),
            increasing(it.remaining()),
            forall|k: K|
                #![trigger it.remaining().contains(k)]
                it.remaining().contains(k) <==> (self@.contains(k) != other@.contains(k)),
    {
        proof {
            self.lemma_elems_ascend();
            other.lemma_elems_ascend();
        }
        let left = self.collect_keys();
        let right = other.collect_keys();
        let items = merge_select(&left, &right, true, false, true);
        let it = CroBTreeSetIter { items, index: 0 };
        assert(it.remaining() =~= derefs(items@));
        it
    }
}

/// An increasing sequence with the members of another increasing sequence
/// is that sequence.
pub proof fn lemma_increasing_unique<K: PartialOrd>(a: Seq<K>, b: Seq<K>)
    requires
        total_order::<K>(),
        increasing(a),
        increasing(b),
        forall|k: K| a.contains(k) <==> b.contains(k),
    ensures
        a == b,
    decreases a.len(),
{
    if a.len() == 0 {
        if b.len() > 0 {
            assert(b.contains(b[0]));
        }
        assert(a =~= b);
    } else {
        let x = a.last();
        assert(a.contains(a[a.len() - 1]));
        assert(b.contains(x));
        let i = choose|i: int| 0 <= i < b.len() && b[i] == x;
        let y = b.last();
        assert(b.contains(b[b.len() - 1]));
        assert(a.contains(y));
        let j = choose|j: int| 0 <= j < a.len() && a[j] == y;
        if i < b.len() - 1 {
            assert(lt(b[i], b[b.len() - 1]));
        }
        if j < a.len() - 1 {
            assert(lt(a[j], a[a.len() - 1]));
        }
        lemma_le_chain(x, y, x);
        assert(x == y);
        let da = a.drop_last();
        let db = b.drop_last();
        assert forall|k: K| da.contains(k) <==> db.contains(k) by {
            if da.contains(k) {
                let p = choose|p: int| 0 <= p < da.len() && da[p] == k;
                assert(lt(a[p], a[a.len() - 1]));
                assert(a.contains(a[p]));
                let q = choose|q: int| 0 <= q < b.len() && b[q] == k;
                assert(db[q] == k);
            }
            if db.contains(k) {
                let p = choose|p: int| 0 <= p < db.len() && db[p] == k;
                assert(lt(b[p], b[b.len() - 1]));
                assert(b.contains(b[p]));
                let q = choose|q: int| 0 <= q < a.len() && a[q] == k;
                assert(da[q] == k);
            }
        }
        assert forall|p: int, q: int| 0 <= p < q < da.len() implies lt(
            #[trigger] da[p],
            #[trigger] da[q],
        ) by {
            assert(lt(a[p], a[q]));
        }
        assert forall|p: int, q: int| 0 <= p < q < db.len() implies lt(
            #[trigger] db[p],
            #[trigger] db[q],
        ) by {
            assert(lt(b[p], b[q]));
        }
        lemma_increasing_unique(da, db);
        assert(a =~= da.push(x));
        assert(b =~= db.push(y));
    }
}

/// `a` comes before `b` in the order of a dictionary: where the two first
/// differ, `a` has the smaller key, or `a` ends there and `b` goes on.
pub open spec fn lex_less<K: PartialOrd>(a: Seq<K>, b: Seq<K>) -> bool {
    exists|n: int|
        0 <= n <= a.len() && n < b.len() && #[trigger] a.subrange(0, n) == b.subrange(0, n) && (n
            == a.len() || lt(a[n], b[n]))
}

/// Where two sequences agree up to a place and differ there, or one of them
/// ends there, that place decides which comes first.
proof fn lemma_lex_decided<K: PartialOrd>(a: Seq<K>, b: Seq<K>, n: int)
    requires
        total_order::<K>(),
        0 <= n <= a.len(),
        n <= b.len(),
        a.subrange(0, n) == b.subrange(0, n),
        n == a.len() || n == b.len() || a[n] != b[n],
    ensures
        lex_less(a, b) <==> n < b.len() && (n == a.len() || lt(a[n], b[n])),
        lex_less(b, a) <==> n < a.len() && (n == b.len() || lt(b[n], a[n])),
        a == b <==> n == a.len() && n == b.len(),
{
    assert forall|i: int| 0 <= i < n implies a[i] == b[i] by {
        assert(a.subrange(0, n)[i] == a[i]);
        assert(b.subrange(0, n)[i] == b[i]);
    }
    if n < a.len() && n < b.len() {
        lemma_le_chain(a[n], b[n], a[n]);
    }
    if lex_less(a, b) {
        let m = choose|m: int|
            0 <= m <= a.len() && m < b.len() && #[trigger] a.subrange(0, m) == b.subrange(0, m)
                && (m == a.len() || lt(a[m], b[m]));
        if m < n {
            lemma_le_chain(a[m], a[m], a[m]);
        } else if m > n {
            assert(a.subrange(0, m)[n] == b.subrange(0, m)[n]);
        }
    }
    if lex_less(b, a) {
        let m = choose|m: int|
            0 <= m <= b.len() && m < a.len() && #[trigger] b.subrange(0, m) == a.subrange(0, m)
                && (m == b.len() || lt(b[m], a[m]));
        if m < n {
            lemma_le_chain(a[m], a[m], a[m]);
        } else if m > n {
            assert(b.subrange(0, m)[n] == a.subrange(0, m)[n]);
        }
    }
    if n == a.len() && n == b.len() {
        assert(a =~= a.subrange(0, n));
        assert(b =~= b.subrange(0, n));
    }
}

/// Compares two ascending sequences of borrowed keys key by key. Returns
/// where the walk stopped, and whether the left sequence was the smaller
/// there, the right one, or neither.
fn compare_keys<K: Ord>(left: &CroVec<&K>, right: &CroVec<&K>) -> (r: (bool, bool))
    requires
        total_order::<K>(),
    ensures
        r.0 == lex_less(derefs(left@), derefs(right@)),
        r.1 == lex_less(derefs(right@), derefs(left@)),
        !(r.0 && r.1),
        !r.0 && !r.1 <==> derefs(left@) == derefs(right@),
{
    let n: usize = left.size();
    let m: usize = right.size();
    let ghost a = derefs(left@);
    let ghost b = derefs(right@);
    let mut i: usize = 0;
    assert(a.subrange(0, 0) =~= b.subrange(0, 0));
    while i < n && i < m
        invariant
            total_order::<K>(),
            i <= n,
            i <= m,
            n == a.len(),
            m == b.len(),
            a == derefs(left@),
            b == derefs(right@),
            a.subrange(0, i as int) == b.subrange(0, i as int),
        decreases n - i,
    {
        let x: &K = *left.get(i);
        let y: &K = *right.get(i);
        assert(*x == a[i as int] && *y == b[i as int]);
        if is_lt(x, y) {
            proof {
                lemma_le_chain(*x, *x, *x);
                lemma_lex_decided(a, b, i as int);
                lemma_le_chain(*x, *y, *x);
            }
            return (true, false);
        }
        if is_lt(y, x) {
            proof {
                lemma_le_chain(*y, *y, *y);
                lemma_lex_decided(a, b, i as int);
            }
            return (false, true);
        }
        assert(a.subrange(0, i + 1) =~= a.subrange(0, i as int).push(a[i as int]));
        assert(b.subrange(0, i + 1) =~= b.subrange(0, i as int).push(b[i as int]));
        i = i + 1;
    }
    proof {
        lemma_lex_decided(a, b, i as int);
    }
    (i < m, i < n)
}

/// How an ordered set stands to another in the order of a dictionary.
pub enum SetOrder {
    /// The set comes first.
    Less,
    /// The sets have the same keys.
    Equal,
    /// The other set comes first.
    Greater,
}

impl<K: Ord> CroBTreeSet<K> {
    /// Whether the two sets have the same keys.
    pub fn eq(&self, other: &Self) -> (b: bool)
        requires
            total_order::<K>(),
            self.wf(),
            other.wf(),
        ensures
            b == (self.elems() == other.elems()),
            b == (self@ == other@),
    {
        proof {
            self.lemma_elems_ascend();
            other.lemma_elems_ascend();
            if self@ == other@ {
                assert forall|k: K| self.elems().contains(k) <==> other.elems().contains(k) by {
                    assert(self@.contains(k) == other@.contains(k));
                }
                lemma_increasing_unique(self.elems(), other.elems());
            }
        }
        if self.len() != other.len() {
            return false;
        }
        let left = self.collect_keys();
        let right = other.collect_keys();
        let r = compare_keys(&left, &right);
        !r.0 && !r.1
    }

    /// How this set stands to `other` in the order of a dictionary, the
    /// keys taken in ascending order.
    pub fn compare(&self, other: &Self) -> (r: SetOrder)
        requires
            total_order::<K>(),
            self.wf(),
            other.wf(),
        ensures
            r is Less <==> lex_less(self.elems(), other.elems()),
            r is Greater <==> lex_less(other.elems(), self.elems()),
            r is Equal <==> self.elems() == other.elems(),
    {
        let left = self.collect_keys();
        let right = other.collect_keys();
        let r = compare_keys(&left, &right);
        if r.0 {
            SetOrder::Less
        } else if r.1 {
            SetOrder::Greater
        } else {
            SetOrder::Equal
        }
    }

    /// A set of clones of the keys, on a tree of the same order.
    pub fn clone(&self) -> (copy: Self) where K: Clone
        requires
            total_order::<K>(),
            self.wf(),
        ensures
            copy.wf(),
            copy.spec_order() == self.spec_order(),
            exists|clones: Seq<K>|
                {
                    &&& clones.len() == self.elems().len()
                    &&& forall|i: int|
                        0 <= i < clones.len() ==> cloned(self.elems()[i], #[trigger] clones[i])
                    &&& copy@ == clones.to_set()
                },
    {
        proof {
            self.lemma_elems_ascend();
        }
        let keys = self.collect_keys();
        let n: usize = keys.size();
        let mut copy = CroBTreeSet::with_order(self.tree.order());
        let ghost mut clones: Seq<K> = Seq::empty();
        let mut i: usize = 0;
        assert(copy@ =~= clones.to_set());
        while i < n
            invariant
                total_order::<K>(),
                i <= n,
                n == keys@.len(),
                derefs(keys@) == self.elems(),
                copy.wf(),
                copy.spec_order() == self.spec_order(),
                copy.elems().len() <= i,
                clones.len() == i,
                forall|j: int| 0 <= j < i ==> cloned(self.elems()[j], #[trigger] clones[j]),
                copy@ == clones.to_set(),
            decreases n - i,
        {
            let key: &K = *keys.get(i);
            assert(*key == derefs(keys@)[i as int]);
            let twin = key.clone();
            let ghost before = copy@;
            let ghost prev = clones;
            let _ = copy.insert(twin);
            proof {
                clones = clones.push(twin);
                assert forall|k: K| clones.to_set().contains(k) == before.insert(twin).contains(
                    k,
                ) by {
                    if clones.contains(k) {
                        let p = choose|p: int| 0 <= p < clones.len() && clones[p] == k;
                        if p < prev.len() {
                            assert(prev[p] == k);
                            assert(prev.contains(k));
                        }
                    }
                    if prev.contains(k) {
                        let p = choose|p: int| 0 <= p < prev.len() && prev[p] == k;
                        assert(clones[p] == k);
                    }
                    if k == twin {
                        assert(clones[clones.len() - 1] == k);
                    }
                }
                assert(copy@ =~= clones.to_set());
            }
            i = i + 1;
        }
        copy
    }
}

} // verus!
