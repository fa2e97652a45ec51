//! The hash set: an adapter over the hash map that stores no values.
//!
//! The set stands for the set of the views of its keys (`@`). Its keys come
//! out in the order of their slots, which is no order that a caller can
//! rely on; the set operations find common keys by looking each key up.

use crate::maps::hash_key::{HashKey, HashStrategy, KeyHash};
use crate::maps::hash_map::{grown, load_ceiling, CroMap};
use crate::maps::model::unref;
use crate::sequences::vec::{kept, CroVec};
use crate::sets::btree_set::{derefs, keys_of};
use vstd::prelude::*;

verus! {

/// A set of `K`, with keys hashed by the strategy `S`.
pub struct CroHashSet<K, S = KeyHash> {
    map: CroMap<K, (), S>,
}

/// Some key of `s` has the view `v`.
pub open spec fn has_view<K: View>(s: Seq<K>, v: K::V) -> bool {
    exists|i: int| 0 <= i < s.len() && (#[trigger] s[i])@ == v
}

/// No two keys of `s` have the same view.
pub open spec fn distinct<K: View>(s: Seq<K>) -> bool {
    forall|i: int, j: int| 0 <= i < j < s.len() ==> (#[trigger] s[i])@ != (#[trigger] s[j])@
}

/// `s` names the set `set`: each member once, by a key with that view, and
/// nothing else.
pub open spec fn names<K: View>(s: Seq<K>, set: Set<K::V>) -> bool {
    &&& distinct(s)
    &&& forall|v: K::V| #![trigger set.contains(v)] set.contains(v) <==> has_view(s, v)
}

/// The views of the keys of `s`.
pub open spec fn views_of<K: View>(s: Seq<K>) -> Set<K::V> {
    Set::new(|v: K::V| has_view(s, v))
}

impl<K: HashKey, S> View for CroHashSet<K, S> {
    type V = Set<K::V>;

    closed spec fn view(&self) -> Set<K::V> {
        self.map@.dom()
    }
}

impl<K: HashKey> CroHashSet<K, KeyHash> {
    /// An empty set with the default capacity of 16 slots.
    pub fn new() -> (set: Self)
        ensures
            set.wf(),
            set@ == Set::<K::V>::empty(),
            set.spec_cap() == 16,
    {
        Self::with_hasher(KeyHash)
    }

    /// An empty set with `cap` slots.
    pub fn with_cap(cap: usize) -> (set: Self)
        ensures
            set.wf(),
            set@ == Set::<K::V>::empty(),
            set.spec_cap() == cap,
    {
        Self::with_cap_and_hasher(cap, KeyHash)
    }
}

impl<K: HashKey, S: HashStrategy<K>> CroHashSet<K, S> {
    /// The number of slots of the table behind the set.
    pub closed spec fn spec_cap(&self) -> usize {
        self.map.spec_cap()
    }

    /// The strategy that hashes the keys of the set.
    pub closed spec fn spec_hasher(&self) -> S {
        self.map.spec_hasher()
    }

    /// The invariant of the set: that of the map behind it.
    pub closed spec fn wf(&self) -> bool {
        self.map.wf()
    }

    /// A set that meets its invariant is finite and within the load ceiling
    /// of its table.
    pub proof fn lemma_within_load(&self)
        requires
            self.wf(),
        ensures
            self@.finite(),
            self@.len() <= load_ceiling(self.spec_cap()),
    {
        self.map.lemma_within_load();
    }

    /// An empty set with the default capacity of 16 slots, whose keys the
    /// strategy `hasher` hashes.
    pub fn with_hasher(hasher: S) -> (set: Self)
        ensures
            set.wf(),
            set@ == Set::<K::V>::empty(),
            set.spec_cap() == 16,
            set.spec_hasher() == hasher,
    {
        let set = CroHashSet { map: CroMap::with_hasher(hasher) };
        assert(set@ =~= Set::<K::V>::empty());
        set
    }

    /// An empty set with `cap` slots, whose keys the strategy `hasher`
    /// hashes.
    pub fn with_cap_and_hasher(cap: usize, hasher: S) -> (set: Self)
        ensures
            set.wf(),
            set@ == Set::<K::V>::empty(),
            set.spec_cap() == cap,
            set.spec_hasher() == hasher,
    {
        let set = CroHashSet { map: CroMap::with_cap_and_hasher(cap, hasher) };
        assert(set@ =~= Set::<K::V>::empty());
        set
    }

    /// The strategy that hashes the keys of the set.
    pub fn hasher(&self) -> (hasher: &S)
        ensures
            *hasher == self.spec_hasher(),
    {
        self.map.hasher()
    }

    /// The number of keys.
    pub fn len(&self) -> (n: usize)
        requires
            self.wf(),
        ensures
            n == self@.len(),
    {
        self.map.size()
    }

    /// The number of slots.
    pub fn cap(&self) -> (n: usize)
        ensures
            n == self.spec_cap(),
    {
        self.map.cap()
    }

    /// Whether the set holds no key.
    pub fn is_empty(&self) -> (b: bool)
        requires
            self.wf(),
        ensures
            b == (self@.len() == 0),
    {
        self.map.is_empty()
    }

    /// Drops every key. The capacity stays.
    pub fn wipe(&mut self)
        requires
            old(self).wf(),
        ensures
            final(self).wf(),
            final(self).spec_hasher() == old(self).spec_hasher(),
            final(self).spec_cap() == old(self).spec_cap(),
            final(self)@ == Set::<K::V>::empty(),
    {
        self.map.wipe();
        assert(self@ =~= Set::<K::V>::empty());
    }

    /// Adds `key`. Returns whether the set did not have it.
    pub fn insert(&mut self, key: K) -> (fresh: bool)
        requires
            old(self).wf(),
            old(self)@.len() < load_ceiling(usize::MAX),
        ensures
            final(self).wf(),
            final(self).spec_hasher() == old(self).spec_hasher(),
            final(self)@ == old(self)@.insert(key@),
            fresh == !old(self)@.contains(key@),
            final(self).spec_cap() == grown(old(self).spec_cap(), (old(self)@.len() + 1) as usize),
    {
        let prev = self.map.insert(key, ());
        assert(self@ =~= old(self)@.insert(key@));
        prev.is_none()
    }

    /// Whether the set has `key`.
    pub fn contains(&self, key: &K) -> (b: bool)
        requires
            self.wf(),
        ensures
            b == self@.contains(key@),
    {
        self.map.contains_key(key)
    }

    /// The key of the set that is the same key as `key`, if there is one.
    pub fn get(&self, key: &K) -> (r: Option<&K>)
        requires
            self.wf(),
        ensures
            r.is_some() == self@.contains(key@),
            r.is_some() ==> r.unwrap()@ == key@,
    {
        match self.map.get_key_value(key) {
            Some(pair) => Some(pair.0),
            None => None,
        }
    }

    /// Removes `key`. Returns whether the set had it.
    pub fn remove(&mut self, key: &K) -> (had: bool)
        requires
            old(self).wf(),
        ensures
            final(self).wf(),
            final(self).spec_hasher() == old(self).spec_hasher(),
            final(self).spec_cap() == old(self).spec_cap(),
            final(self)@ == old(self)@.remove(key@),
            had == old(self)@.contains(key@),
    {
        let r = self.map.remove_entry(key);
        assert(self@ =~= old(self)@.remove(key@));
        r.is_some()
    }

    /// Removes `key` and hands back the key that the set held for it, if
    /// there is one.
    pub fn take(&mut self, key: &K) -> (r: Option<K>)
        requires
            old(self).wf(),
        ensures
            final(self).wf(),
            final(self).spec_hasher() == old(self).spec_hasher(),
            final(self).spec_cap() == old(self).spec_cap(),
            final(self)@ == old(self)@.remove(key@),
            r.is_some() == old(self)@.contains(key@),
            r.is_some() ==> r.unwrap()@ == key@,
    {
        let r = self.map.remove_entry(key);
        assert(self@ =~= old(self)@.remove(key@));
        match r {
            Some(pair) => Some(pair.0),
            None => None,
        }
    }

    /// Puts `key` in place of the key that the set holds for it, and hands
    /// that one back, if there is one.
    pub fn replace(&mut self, key: K) -> (r: Option<K>)
        requires
            old(self).wf(),
            old(self)@.len() < load_ceiling(usize::MAX),
        ensures
            final(self).wf(),
            final(self).spec_hasher() == old(self).spec_hasher(),
            final(self)@ == old(self)@.insert(key@),
            r.is_some() == old(self)@.contains(key@),
            r.is_some() ==> r.unwrap()@ == key@,
    {
        let prev = self.take(&key);
        proof {
            old(self).lemma_within_load();
        }
        let _ = self.insert(key);
        assert(self@ =~= old(self)@.insert(key@));
        prev
    }

    /// Makes room for `additional` more keys.
    pub fn reserve(&mut self, additional: usize)
        requires
            old(self).wf(),
            old(self)@.len() + additional <= load_ceiling(usize::MAX),
        ensures
            final(self).wf(),
            final(self).spec_hasher() == old(self).spec_hasher(),
            final(self)@ == old(self)@,
            final(self).spec_cap() == grown(
                old(self).spec_cap(),
                (old(self)@.len() + additional) as usize,
            ),
    {
        self.map.reserve(additional);
    }

    /// Shrinks the table as far as the keys of the set allow.
    pub fn shrink_to_fit(&mut self)
        requires
            old(self).wf(),
        ensures
            final(self).wf(),
            final(self).spec_hasher() == old(self).spec_hasher(),
            final(self)@ == old(self)@,
            final(self).spec_cap() == if grown(0, old(self)@.len() as usize) < old(self).spec_cap() {
                grown(0, old(self)@.len() as usize)
            } else {
                old(self).spec_cap()
            },
    {
        self.map.shrink_to_fit();
    }

    /// Shrinks the table to the capacity that `min_cap` grows to for the
    /// keys of the set, if that is less than the capacity is.
    pub fn shrink_to(&mut self, min_cap: usize)
        requires
            old(self).wf(),
        ensures
            final(self).wf(),
            final(self).spec_hasher() == old(self).spec_hasher(),
            final(self)@ == old(self)@,
            final(self).spec_cap() == if grown(min_cap, old(self)@.len() as usize) < old(self).spec_cap() {
                grown(min_cap, old(self)@.len() as usize)
            } else {
                old(self).spec_cap()
            },
    {
        self.map.shrink_to(min_cap);
    }

    /// The keys of the set, borrowed, in the order of their slots.
    fn all_keys(&self) -> (keys: CroVec<&K>)
        requires
            self.wf(),
        ensures
            keys.wf(),
            names(derefs(keys@), self@),
            keys@.len() == self@.len(),
    {
        let pairs = self.map.iter();
        let n: usize = pairs.size();
        let mut keys: CroVec<&K> = CroVec::with_cap(n);
        let mut i: usize = 0;
        while i < n
            invariant
                i <= n,
                n == pairs@.len(),
                keys.wf(),
                keys@.len() == i,
                forall|j: int| 0 <= j < i ==> #[trigger] keys@[j] == pairs@[j].0,
            decreases n - i,
        {
            let pair = pairs.get(i);
            keys.push(pair.0);
            i = i + 1;
        }
        proof {
            let s = derefs(keys@);
            let p = unref(pairs@);
            assert forall|a: int, b: int| 0 <= a < b < s.len() implies (#[trigger] s[a])@ != (
            #[trigger] s[b])@ by {
                assert(p[a].0@ != p[b].0@);
            }
            assert forall|v: K::V| #![trigger self@.contains(v)] self@.contains(v) <==> has_view(s, v) by {
                if self@.contains(v) {
                    let t = choose|t: int| 0 <= t < p.len() && (#[trigger] p[t]).0@ == v;
                    assert(s[t]@ == v);
                }
                if has_view(s, v) {
                    let t = choose|t: int| 0 <= t < s.len() && (#[trigger] s[t])@ == v;
                    assert(self.map@.contains_key(p[t].0@));
                }
            }
        }
        keys
    }

    /// A cursor over the keys, in the order of their slots.
    pub fn iter(&self) -> (it: CroHashSetIter<'_, K>)
        requires
            self.wf(),
        ensures
            it.wf(),
            names(it.remaining(), self@),
    {
        let items = self.all_keys();
        let it = CroHashSetIter { items, index: 0 };
        assert(it.remaining() =~= derefs(items@));
        it
    }
}

/// A cursor over borrowed keys.
pub struct CroHashSetIter<'a, K> {
    items: CroVec<&'a K>,
    index: usize,
}

impl<'a, K> CroHashSetIter<'a, K> {
    /// The keys that the cursor has not handed out yet.
    pub closed spec fn remaining(&self) -> Seq<K> {
        derefs(self.items@.subrange(self.index as int, self.items@.len() as int))
    }

    /// The invariant of the cursor: its position is within its keys.
    pub closed spec fn wf(&self) -> bool {
        self.items.wf() && self.index <= self.items@.len()
    }

    /// Hands out the next key, or `None` when none is left.
    pub fn next(&mut self) -> (r: Option<&'a K>)
        requires
            old(self).wf(),
        ensures
            final(self).wf(),
            old(self).remaining().len() == 0 ==> r.is_none(),
            old(self).remaining().len() == 0 ==> final(self).remaining() == old(self).remaining(),
            old(self).remaining().len() > 0 ==> r == Some(&old(self).remaining()[0]),
            old(self).remaining().len() > 0 ==> final(self).remaining() == old(self).remaining().drop_first(),
    {
        if self.index < self.items.size() {
            let item: &'a K = *self.items.get(self.index);
            self.index = self.index + 1;
            assert(self.remaining() =~= old(self).remaining().drop_first());
            Some(item)
        } else {
            None
        }
    }
}

/// A cursor over the keys that were moved out of a set. It hands them out
/// from the last on.
pub struct CroHashSetDrain<K> {
    items: CroVec<K>,
}

impl<K> CroHashSetDrain<K> {
    /// The keys that the cursor has not handed out yet.
    pub closed spec fn remaining(&self) -> Seq<K> {
        self.items@
    }

    /// The invariant of the cursor.
    pub closed spec fn wf(&self) -> bool {
        self.items.wf()
    }

    /// Hands out the next key, or `None` when none is left.
    pub fn next(&mut self) -> (r: Option<K>)
        requires
            old(self).wf(),
        ensures
            final(self).wf(),
            old(self).remaining().len() == 0 ==> r.is_none(),
            old(self).remaining().len() == 0 ==> final(self).remaining() == old(self).remaining(),
            old(self).remaining().len() > 0 ==> r == Some(old(self).remaining().last()),
            old(self).remaining().len() > 0 ==> final(self).remaining() == old(self).remaining().drop_last(),
    {
        self.items.pop()
    }
}

/// A cursor over the keys of a set that was turned into it. It hands them
/// out from the last on.
pub struct CroHashSetIntoIter<K> {
    iter: CroHashSetDrain<K>,
}

impl<K> CroHashSetIntoIter<K> {
    /// The keys that the cursor has not handed out yet.
    pub closed spec fn remaining(&self) -> Seq<K> {
        self.iter.remaining()
    }

    /// The invariant of the cursor.
    pub closed spec fn wf(&self) -> bool {
        self.iter.wf()
    }

    /// Hands out the next key, or `None` when none is left.
    pub fn next(&mut self) -> (r: Option<K>)
        requires
            old(self).wf(),
        ensures
            final(self).wf(),
            old(self).remaining().len() == 0 ==> r.is_none(),
            old(self).remaining().len() == 0 ==> final(self).remaining() == old(self).remaining(),
            old(self).remaining().len() > 0 ==> r == Some(old(self).remaining().last()),
            old(self).remaining().len() > 0 ==> final(self).remaining() == old(self).remaining().drop_last(),
    {
        self.iter.next()
    }
}

impl<K: HashKey, S: HashStrategy<K>> CroHashSet<K, S> {
    /// Moves every key out of the set, in the order of their slots, and
    /// leaves the set empty, with the capacity it had.
    fn take_all(&mut self) -> (keys: CroVec<K>)
        requires
            old(self).wf(),
        ensures
            final(self).wf(),
            final(self).spec_hasher() == old(self).spec_hasher(),
            final(self).spec_cap() == old(self).spec_cap(),
            final(self)@ == Set::<K::V>::empty(),
            keys.wf(),
            names(keys@, old(self)@),
            keys@.len() == old(self)@.len(),
    {
        let mut pairs = self.map.drain();
        let ghost all = pairs@;
        let n: usize = pairs.size();
        let mut backward: CroVec<K> = CroVec::with_cap(n);
        while pairs.size() > 0
            invariant
                pairs.wf(),
                backward.wf(),
                all.len() == n,
                pairs@.len() <= all.len(),
                pairs@ == all.subrange(0, pairs@.len() as int),
                backward@ == keys_of(all).reverse().subrange(0, all.len() - pairs@.len()),
            decreases pairs@.len(),
        {
            let ghost r = pairs@.len() as int;
            let pair = pairs.pop().unwrap();
            backward.push(pair.0);
            assert(pairs@ =~= all.subrange(0, r - 1));
            assert(backward@ =~= keys_of(all).reverse().subrange(0, all.len() - (r - 1)));
        }
        let mut keys: CroVec<K> = CroVec::with_cap(n);
        let ghost rev = backward@;
        assert(rev =~= keys_of(all).reverse());
        while backward.size() > 0
            invariant
                backward.wf(),
                keys.wf(),
                rev.len() == n,
                backward@.len() <= rev.len(),
                backward@ == rev.subrange(0, backward@.len() as int),
                keys@ == rev.reverse().subrange(0, rev.len() - backward@.len()),
            decreases backward@.len(),
        {
            let ghost r = backward@.len() as int;
            let key = backward.pop().unwrap();
            keys.push(key);
            assert(backward@ =~= rev.subrange(0, r - 1));
            assert(keys@ =~= rev.reverse().subrange(0, rev.len() - (r - 1)));
        }
        proof {
            assert(keys@ =~= keys_of(all));
            assert(self@ =~= Set::<K::V>::empty());
            let s = keys@;
            assert forall|a: int, b: int| 0 <= a < b < s.len() implies (#[trigger] s[a])@ != (
            #[trigger] s[b])@ by {
                assert(all[a].0@ != all[b].0@);
            }
            assert forall|v: K::V|
                #![trigger old(self)@.contains(v)]
                old(self)@.contains(v) <==> has_view(s, v) by {
                if old(self)@.contains(v) {
                    let t = choose|t: int| 0 <= t < all.len() && (#[trigger] all[t]).0@ == v;
                    assert(s[t]@ == v);
                }
                if has_view(s, v) {
                    let t = choose|t: int| 0 <= t < s.len() && (#[trigger] s[t])@ == v;
                    assert(old(self).map@.contains_key(all[t].0@));
                }
            }
        }
        keys
    }

    /// Moves every key out of the set into a cursor and leaves the set
    /// empty, with the capacity it had.
    pub fn drain(&mut self) -> (it: CroHashSetDrain<K>)
        requires
            old(self).wf(),
        ensures
            final(self).wf(),
            final(self).spec_hasher() == old(self).spec_hasher(),
            final(self).spec_cap() == old(self).spec_cap(),
            final(self)@ == Set::<K::V>::empty(),
            it.wf(),
            names(it.remaining(), old(self)@),
    {
        let items = self.take_all();
        CroHashSetDrain { items }
    }

    /// Turns the set into a cursor over its keys.
    pub fn into_iter(self) -> (it: CroHashSetIntoIter<K>)
        requires
            self.wf(),
        ensures
            it.wf(),
            names(it.remaining(), self@),
    {
        let mut set = self;
        let iter = set.drain();
        CroHashSetIntoIter { iter }
    }

    /// Adds every key of `items`.
    pub fn extend(&mut self, items: CroVec<K>)
        requires
            old(self).wf(),
            items.wf(),
            old(self)@.len() + items@.len() <= load_ceiling(usize::MAX),
        ensures
            final(self).wf(),
            final(self).spec_hasher() == old(self).spec_hasher(),
            final(self)@ == old(self)@.union(views_of(items@)),
            final(self)@.len() <= old(self)@.len() + items@.len(),
    {
        let mut items = items;
        let ghost all = items@;
        proof {
            old(self).lemma_within_load();
        }
        while items.size() > 0
            invariant
                self.wf(),
                self.spec_hasher() == old(self).spec_hasher(),
                items.wf(),
                items@.len() <= all.len(),
                items@ == all.subrange(0, items@.len() as int),
                old(self)@.finite(),
                self@.finite(),
                old(self)@.len() + all.len() <= load_ceiling(usize::MAX),
                self@.len() <= old(self)@.len() + all.len() - items@.len(),
                forall|v: K::V|
                    #![trigger self@.contains(v)]
                    self@.contains(v) <==> old(self)@.contains(v) || exists|p: int|
                        items@.len() <= p < all.len() && (#[trigger] all[p])@ == v,
            decreases items@.len(),
        {
            let ghost r = items@.len() as int;
            let ghost before = self@;
            let key = items.pop().unwrap();
            assert(items@ =~= all.subrange(0, r - 1));
            assert(all[r - 1] == key);
            let _ = self.insert(key);
            proof {
                self.lemma_within_load();
                assert forall|v: K::V|
                    #![trigger self@.contains(v)]
                    self@.contains(v) <==> old(self)@.contains(v) || exists|p: int|
                        r - 1 <= p < all.len() && (#[trigger] all[p])@ == v by {
                    if exists|p: int| r - 1 <= p < all.len() && (#[trigger] all[p])@ == v {
                        let p = choose|p: int| r - 1 <= p < all.len() && (#[trigger] all[p])@ == v;
                        if p != r - 1 {
                            assert(r <= p < all.len() && all[p]@ == v);
                        }
                    }
                    if before.contains(v) && !old(self)@.contains(v) {
                        let p = choose|p: int| r <= p < all.len() && (#[trigger] all[p])@ == v;
                        assert(r - 1 <= p < all.len() && all[p]@ == v);
                    }
                }
            }
        }
        proof {
            assert forall|v: K::V|
                self@.contains(v) == old(self)@.union(views_of(all)).contains(v) by {
                if has_view(all, v) {
                    let p = choose|p: int| 0 <= p < all.len() && (#[trigger] all[p])@ == v;
                    assert(0 <= p < all.len() && all[p]@ == v);
                }
            }
            assert(self@ =~= old(self)@.union(views_of(all)));
        }
    }

    /// Moves every key of `other` into this set and leaves `other` empty.
    pub fn append(&mut self, other: &mut CroHashSet<K, S>)
        requires
            old(self).wf(),
            old(other).wf(),
            old(self)@.len() + old(other)@.len() <= load_ceiling(usize::MAX),
        ensures
            final(self).wf(),
            final(self).spec_hasher() == old(self).spec_hasher(),
            final(other).wf(),
            final(self)@ == old(self)@.union(old(other)@),
            final(other)@ == Set::<K::V>::empty(),
            final(other).spec_cap() == old(other).spec_cap(),
    {
        let keys = other.take_all();
        self.extend(keys);
        assert(self@ =~= old(self)@.union(old(other)@));
    }

    /// Keeps the keys for which `pred` answers `true` and drops the others.
    /// `pred` is asked once for each key, in the order of their slots.
    pub fn retain<F: Fn(&K) -> bool>(&mut self, pred: F)
        requires
            old(self).wf(),
            forall|k: K| old(self)@.contains(k@) ==> call_requires(pred, (&k,)),
        ensures
            final(self).wf(),
            exists|keys: Seq<K>, keep: Seq<bool>|
                {
                    &&& names(keys, old(self)@)
                    &&& keep.len() == keys.len()
                    &&& forall|i: int|
                        0 <= i < keep.len() ==> call_ensures(pred, (&keys[i],), #[trigger] keep[i])
                    &&& final(self)@ == views_of(kept(keys, keep))
                },
    {
        proof {
            old(self).lemma_within_load();
        }
        let mut keys = self.take_all();
        let ghost all = keys@;
        proof {
            assert forall|i: int| 0 <= i < all.len() implies call_requires(pred, (&all[i],)) by {
                assert(has_view(all, all[i]@));
                assert(old(self)@.contains(all[i]@));
            }
        }
        keys.retain(pred);
        let ghost keep = choose|keep: Seq<bool>|
            {
                &&& keep.len() == all.len()
                &&& forall|i: int|
                    0 <= i < keep.len() ==> call_ensures(pred, (&all[i],), #[trigger] keep[i])
                &&& keys@ == kept(all, keep)
            };
        proof {
            crate::sequences::vec::lemma_kept_len(all, keep);
        }
        self.extend(keys);
        assert(self@ =~= views_of(kept(all, keep)));
    }
}

/// `out` holds the keys of `keys` at the places `src`, which ascend and
/// lie before `upto`, and those are the places before `upto` whose keys
/// `keep` holds.
spec fn picked<K: View>(out: Seq<K>, keys: Seq<K>, src: Seq<int>, upto: int, keep: Set<K::V>) -> bool {
    &&& src.len() == out.len()
    &&& forall|t: int| 0 <= t < out.len() ==> 0 <= #[trigger] src[t] < upto
    &&& forall|t: int| 0 <= t < out.len() ==> #[trigger] out[t] == keys[src[t]]
    &&& forall|t: int| 0 <= t < out.len() ==> keep.contains((#[trigger] out[t])@)
    &&& forall|t: int, u: int| 0 <= t < u < out.len() ==> #[trigger] src[t] < #[trigger] src[u]
    &&& forall|p: int|
        0 <= p < upto && keep.contains((#[trigger] keys[p])@) ==> exists|t: int|
            0 <= t < out.len() && #[trigger] src[t] == p
}

/// What was picked from all of a sequence that names a set names the part
/// of the set that was to be kept.
proof fn lemma_picked<K: View>(
    out: Seq<K>,
    keys: Seq<K>,
    src: Seq<int>,
    set: Set<K::V>,
    keep: Set<K::V>,
)
    requires
        names(keys, set),
        picked(out, keys, src, keys.len() as int, keep),
    ensures
        names(out, set.intersect(keep)),
{
    assert forall|a: int, b: int| 0 <= a < b < out.len() implies (#[trigger] out[a])@ != (
    #[trigger] out[b])@ by {
        assert(src[a] < src[b]);
        assert(keys[src[a]]@ != keys[src[b]]@);
    }
    assert forall|v: K::V|
        #![trigger set.intersect(keep).contains(v)]
        set.intersect(keep).contains(v) <==> has_view(out, v) by {
        if set.contains(v) && keep.contains(v) {
            let p = choose|p: int| 0 <= p < keys.len() && (#[trigger] keys[p])@ == v;
            let t = choose|t: int| 0 <= t < out.len() && #[trigger] src[t] == p;
            assert(out[t]@ == v);
        }
        if has_view(out, v) {
            let t = choose|t: int| 0 <= t < out.len() && (#[trigger] out[t])@ == v;
            assert(keys[src[t]]@ == v);
            assert(has_view(keys, v));
        }
    }
}

impl<K: HashKey, S: HashStrategy<K>> CroHashSet<K, S> {
    /// The keys of this set that `other` has, if `want` is set, or that it
    /// does not have, if not: each key of this set is looked up in `other`.
    fn filtered<'a>(&'a self, other: &CroHashSet<K, S>, want: bool) -> (out: CroVec<&'a K>)
        requires
            self.wf(),
            other.wf(),
        ensures
            out.wf(),
            names(
                derefs(out@),
                if want {
                    self@.intersect(other@)
                } else {
                    self@.difference(other@)
                },
            ),
            out@.len() <= self@.len(),
    {
        let keys = self.all_keys();
        let n: usize = keys.size();
        let ghost keep = if want {
            other@
        } else {
            other@.complement()
        };
        let ghost mut src: Seq<int> = Seq::empty();
        let mut out: CroVec<&'a K> = CroVec::with_cap(0);
        let mut i: usize = 0;
        while i < n
            invariant
                i <= n,
                n == keys@.len(),
                other.wf(),
                out.wf(),
                out@.len() <= i,
                keep == if want {
                    other@
                } else {
                    other@.complement()
                },
                picked(derefs(out@), derefs(keys@), src, i as int, keep),
            decreases n - i,
        {
            let key: &'a K = *keys.get(i);
            let ghost prev = derefs(out@);
            let ghost prev_src = src;
            assert(*key == derefs(keys@)[i as int]);
            if other.contains(key) == want {
                out.push(key);
                proof {
                    src = src.push(i as int);
                    assert(derefs(out@) =~= prev.push(*key));
                    assert forall|p: int|
                        0 <= p < i + 1 && keep.contains((#[trigger] derefs(keys@)[p])@) implies exists|
                        t: int,
                    | 0 <= t < src.len() && #[trigger] src[t] == p by {
                        if p < i {
                            let t = choose|t: int| 0 <= t < prev.len() && #[trigger] prev_src[t] == p;
                            assert(src[t] == p);
                        } else {
                            assert(src[src.len() - 1] == p);
                        }
                    }
                    assert forall|t: int, u: int| 0 <= t < u < src.len() implies #[trigger] src[t]
                        < #[trigger] src[u] by {
                        if u < prev.len() {
                            assert(prev_src[t] < prev_src[u]);
                        } else {
                            assert(prev_src[t] < i);
                        }
                    }
                }
            } else {
                proof {
                    assert forall|p: int|
                        0 <= p < i + 1 && keep.contains((#[trigger] derefs(keys@)[p])@) implies exists|
                        t: int,
                    | 0 <= t < src.len() && #[trigger] src[t] == p by {
                        let t = choose|t: int| 0 <= t < prev.len() && #[trigger] prev_src[t] == p;
                        assert(src[t] == p);
                    }
                }
            }
            i = i + 1;
        }
        proof {
            lemma_picked(derefs(out@), derefs(keys@), src, self@, keep);
            if want {
                assert(self@.intersect(keep) =~= self@.intersect(other@));
            } else {
                assert(self@.intersect(keep) =~= self@.difference(other@));
            }
        }
        out
    }

    /// A cursor over the keys that are in this set or in `other`: the keys
    /// of this set, then the keys of `other` that this set does not have.
    pub fn union<'a>(&'a self, other: &'a CroHashSet<K, S>) -> (it: CroHashSetIter<'a, K>)
        requires
            self.wf(),
            other.wf(),
            self@.len() + other@.len() <= usize::MAX,
        ensures
            it.wf(),
            names(it.remaining(), self@.union(other@)),
    {
        let mut items = self.all_keys();
        let mut more = other.filtered(self, false);
        let ghost first = derefs(items@);
        let ghost second = derefs(more@);
        items.append(&mut more);
        let it = CroHashSetIter { items, index: 0 };
        proof {
            assert(it.remaining() =~= first + second);
            lemma_joined(first, self@, second, other@.difference(self@));
            assert(self@.union(other@.difference(self@)) =~= self@.union(other@));
        }
        it
    }

    /// A cursor over the keys that are in this set and in `other`.
    pub fn intersection<'a>(&'a self, other: &'a CroHashSet<K, S>) -> (it: CroHashSetIter<'a, K>)
        requires
            self.wf(),
            other.wf(),
        ensures
            it.wf(),
            names(it.remaining(), self@.intersect(other@)),
    {
        let items = self.filtered(other, true);
        let it = CroHashSetIter { items, index: 0 };
        assert(it.remaining() =~= derefs(items@));
        it
    }

    /// A cursor over the keys that are in this set and not in `other`.
    pub fn difference<'a>(&'a self, other: &'a CroHashSet<K, S>) -> (it: CroHashSetIter<'a, K>)
        requires
            self.wf(),
            other.wf(),
        ensures
            it.wf(),
            names(it.remaining(), self@.difference(other@)),
    {
        let items = self.filtered(other, false);
        let it = CroHashSetIter { items, index: 0 };
        assert(it.remaining() =~= derefs(items@));
        it
    }

    /// A cursor over the keys that are in one of this set and `other` and
    /// not in the other: those of this set first.
    pub fn symmetric_difference<'a>(&'a self, other: &'a CroHashSet<K, S>) -> (it: CroHashSetIter<
        'a,
        K,
    >)
        requires
            self.wf(),
            other.wf(),
            self@.len() + other@.len() <= usize::MAX,
        ensures
            it.wf(),
            names(it.remaining(), self@.difference(other@).union(other@.difference(self@))),
    {
        let mut items = self.filtered(other, false);
        let mut more = other.filtered(self, false);
        let ghost first = derefs(items@);
        let ghost second = derefs(more@);
        items.append(&mut more);
        let it = CroHashSetIter { items, index: 0 };
        proof {
            assert(it.remaining() =~= first + second);
            lemma_joined(first, self@.difference(other@), second, other@.difference(self@));
        }
        it
    }

    /// Whether every key of this set is a key of `other`.
    pub fn is_subset(&self, other: &CroHashSet<K, S>) -> (b: bool)
        requires
            self.wf(),
            other.wf(),
        ensures
            b == self@.subset_of(other@),
    {
        let keys = self.all_keys();
        let n: usize = keys.size();
        let mut i: usize = 0;
        while i < n
            invariant
                i <= n,
                n == keys@.len(),
                other.wf(),
                names(derefs(keys@), self@),
                forall|j: int| 0 <= j < i ==> other@.contains((#[trigger] derefs(keys@)[j])@),
            decreases n - i,
        {
            let key: &K = *keys.get(i);
            assert(*key == derefs(keys@)[i as int]);
            if !other.contains(key) {
                assert(has_view(derefs(keys@), key@));
                assert(self@.contains(key@));
                return false;
            }
            i = i + 1;
        }
        proof {
            assert forall|v: K::V| self@.contains(v) implies other@.contains(v) by {
                let p = choose|p: int|
                    0 <= p < derefs(keys@).len() && (#[trigger] derefs(keys@)[p])@ == v;
                assert(other@.contains(derefs(keys@)[p]@));
            }
        }
        true
    }

    /// Whether every key of `other` is a key of this set.
    pub fn is_superset(&self, other: &CroHashSet<K, S>) -> (b: bool)
        requires
            self.wf(),
            other.wf(),
        ensures
            b == other@.subset_of(self@),
    {
        other.is_subset(self)
    }

    /// Whether no key of this set is a key of `other`.
    pub fn is_disjoint(&self, other: &CroHashSet<K, S>) -> (b: bool)
        requires
            self.wf(),
            other.wf(),
        ensures
            b == self@.disjoint(other@),
    {
        let keys = self.all_keys();
        let n: usize = keys.size();
        let mut i: usize = 0;
        while i < n
            invariant
                i <= n,
                n == keys@.len(),
                other.wf(),
                names(derefs(keys@), self@),
                forall|j: int| 0 <= j < i ==> !other@.contains((#[trigger] derefs(keys@)[j])@),
            decreases n - i,
        {
            let key: &K = *keys.get(i);
            assert(*key == derefs(keys@)[i as int]);
            if other.contains(key) {
                assert(has_view(derefs(keys@), key@));
                assert(self@.contains(key@));
                return false;
            }
            i = i + 1;
        }
        proof {
            assert forall|v: K::V| self@.contains(v) implies !other@.contains(v) by {
                let p = choose|p: int|
                    0 <= p < derefs(keys@).len() && (#[trigger] derefs(keys@)[p])@ == v;
                assert(!other@.contains(derefs(keys@)[p]@));
            }
        }
        true
    }
}

/// Two sequences that name disjoint sets name, end to end, the union of the
/// sets.
proof fn lemma_joined<K: View>(a: Seq<K>, sa: Set<K::V>, b: Seq<K>, sb: Set<K::V>)
    requires
        names(a, sa),
        names(b, sb),
        sa.disjoint(sb),
    ensures
        names(a + b, sa.union(sb)),
{
    let c = a + b;
    assert forall|i: int, j: int| 0 <= i < j < c.len() implies (#[trigger] c[i])@ != (
    #[trigger] c[j])@ by {
        if j < a.len() {
            assert(a[i]@ != a[j]@);
        } else if i >= a.len() {
            assert(b[i - a.len()]@ != b[j - a.len()]@);
        } else {
            assert(has_view(a, a[i]@));
            assert(has_view(b, b[j - a.len()]@));
            assert(sa.contains(a[i]@));
            assert(sb.contains(b[j - a.len()]@));
        }
    }
    assert forall|v: K::V|
        #![trigger sa.union(sb).contains(v)]
        sa.union(sb).contains(v) <==> has_view(c, v) by {
        if sa.contains(v) {
            let p = choose|p: int| 0 <= p < a.len() && (#[trigger] a[p])@ == v;
            assert(c[p]@ == v);
        }
        if sb.contains(v) {
            let p = choose|p: int| 0 <= p < b.len() && (#[trigger] b[p])@ == v;
            assert(c[p + a.len()]@ == v);
        }
        if has_view(c, v) {
            let p = choose|p: int| 0 <= p < c.len() && (#[trigger] c[p])@ == v;
            if p < a.len() {
                assert(a[p]@ == v);
                assert(has_view(a, v));
            } else {
                assert(b[p - a.len()]@ == v);
                assert(has_view(b, v));
            }
        }
    }
}

impl<K: HashKey, S: HashStrategy<K>> CroHashSet<K, S> {
    /// Whether the two sets have the same keys: they have as many, and
    /// every key of this set is a key of `other`.
    pub fn eq(&self, other: &CroHashSet<K, S>) -> (b: bool)
        requires
            self.wf(),
            other.wf(),
        ensures
            b == (self@ == other@),
    {
        proof {
            self.lemma_within_load();
            other.lemma_within_load();
        }
        if self.len() != other.len() {
            return false;
        }
        let sub: bool = self.is_subset(other);
        proof {
            if sub {
                vstd::set_lib::lemma_subset_equality(self@, other@);
            }
        }
        sub
    }

    /// A set of clones of the keys, hashed by a clone of the strategy.
    pub fn clone(&self) -> (copy: Self) where K: Clone, S: Clone
        requires
            self.wf(),
        ensures
            copy.wf(),
            cloned(self.spec_hasher(), copy.spec_hasher()),
            exists|keys: Seq<K>, clones: Seq<K>|
                #![trigger names(keys, self@), views_of(clones)]
                {
                    &&& names(keys, self@)
                    &&& clones.len() == keys.len()
                    &&& forall|i: int|
                        0 <= i < clones.len() ==> cloned(keys[i], #[trigger] clones[i])
                    &&& copy@ == views_of(clones)
                },
    {
        proof {
            self.lemma_within_load();
        }
        let keys = self.all_keys();
        let n: usize = keys.size();
        let mut copy = CroHashSet::with_hasher(self.map.hasher().clone());
        let ghost mut clones: Seq<K> = Seq::empty();
        let mut i: usize = 0;
        assert(copy@ =~= views_of(clones));
        while i < n
            invariant
                i <= n,
                n == keys@.len(),
                n <= load_ceiling(usize::MAX),
                names(derefs(keys@), self@),
                copy.wf(),
                cloned(self.spec_hasher(), copy.spec_hasher()),
                copy@.finite(),
                copy@.len() <= i,
                clones.len() == i,
                forall|j: int| 0 <= j < i ==> cloned(derefs(keys@)[j], #[trigger] clones[j]),
                copy@ == views_of(clones),
            decreases n - i,
        {
            let key: &K = *keys.get(i);
            assert(*key == derefs(keys@)[i as int]);
            let twin = key.clone();
            let ghost before = copy@;
            let ghost prev = clones;
            let _ = copy.insert(twin);
            proof {
                copy.lemma_within_load();
                clones = clones.push(twin);
                assert forall|v: K::V| views_of(clones).contains(v) == before.insert(
                    twin@,
                ).contains(v) by {
                    if has_view(clones, v) {
                        let p = choose|p: int| 0 <= p < clones.len() && (#[trigger] clones[p])@ == v;
                        if p < prev.len() {
                            assert(prev[p]@ == v);
                            assert(has_view(prev, v));
                        }
                    }
                    if has_view(prev, v) {
                        let p = choose|p: int| 0 <= p < prev.len() && (#[trigger] prev[p])@ == v;
                        assert(clones[p]@ == v);
                    }
                    if v == twin@ {
                        assert(clones[clones.len() - 1]@ == v);
                    }
                }
                assert(copy@ =~= views_of(clones));
            }
            i = i + 1;
        }
        proof {
            let all = derefs(keys@);
            assert(names(all, self@) && clones.len() == all.len() && copy@ == views_of(clones));
        }
        copy
    }
}

} // verus!
