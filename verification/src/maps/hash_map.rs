//! The hash map: an open-addressing table with linear probing.
//!
//! A key probes from its home slot, `hash mod capacity`, one slot at a time
//! and around the end of the table. A removed pair leaves a tombstone, so
//! that the probes of other keys still pass over its slot; a rehash drops
//! the tombstones. Tombstones do not count towards the load: an insertion
//! that finds no empty slot on its way takes the first tombstone it passed,
//! and a probe gives up after it has seen every slot once.

use crate::maps::hash_key::{HashKey, HashStrategy, KeyHash};
use crate::maps::model::{lookup, unref};
use crate::sequences::vec::{doubled, CroVec};
use vstd::prelude::*;

verus! {

/// One slot of the table.
enum Slot<K, V> {
    /// Never used since the last rehash.
    Empty,
    /// Holds a pair.
    Occupied(K, V),
    /// Held a pair that was removed.
    Tombstone,
}

/// A map from `K` to `V`, with keys hashed by the strategy `S`. It stands
/// for the map from the views of its keys to their values.
pub struct CroMap<K, V, S = KeyHash> {
    slots: CroVec<Slot<K, V>>,
    size: usize,
    hasher: S,
}

/// The most pairs that a table of capacity `cap` may hold: three quarters
/// of its slots.
pub open spec fn load_ceiling(cap: usize) -> usize {
    (cap - cap / 4) as usize
}

/// The capacity that a table of capacity `cap` grows to when it is to hold
/// `need` pairs: `cap` doubled until `need` is within the load ceiling.
pub open spec fn grown(cap: usize, need: usize) -> usize
    decreases usize::MAX - cap,
{
    if need <= load_ceiling(cap) || cap == usize::MAX {
        cap
    } else {
        grown(doubled(cap), need)
    }
}

/// The slot that lies `d` steps after slot `h` in a table of `cap` slots,
/// around the end.
spec fn step(h: int, d: int, cap: int) -> int {
    if h + d < cap {
        h + d
    } else {
        h + d - cap
    }
}

/// The number of steps from slot `h` to slot `j`, around the end.
spec fn dist(h: int, j: int, cap: int) -> int {
    if j >= h {
        j - h
    } else {
        j + cap - h
    }
}

/// The slot that a key with the given hash probes from in a table of `cap`
/// slots.
spec fn home(hash: u64, cap: int) -> int {
    (hash as int) % cap
}

/// The slot holds a pair whose key has the view `k`.
spec fn holds_key<K: HashKey, V>(slot: Slot<K, V>, k: K::V) -> bool {
    match slot {
        Slot::Occupied(key, _) => key@ == k,
        _ => false,
    }
}

/// The number of slots that hold a pair.
spec fn occupied_count<K, V>(s: Seq<Slot<K, V>>) -> nat
    decreases s.len(),
{
    if s.len() == 0 {
        0
    } else if s.last() is Occupied {
        occupied_count(s.drop_last()) + 1
    } else {
        occupied_count(s.drop_last())
    }
}

/// Every slot between the home of `k` and slot `j` holds a pair, so that
/// `j` is the first slot on the way of a probe for `k` that holds none.
spec fn path_full<K: HashKey, V, S: HashStrategy<K>>(hs: S, s: Seq<Slot<K, V>>, k: K::V, j: int) -> bool {
    forall|e: int|
        0 <= e < dist(home(hs.hash_of(k), s.len() as int), j, s.len() as int) ==> #[trigger] s[step(
            home(hs.hash_of(k), s.len() as int),
            e,
            s.len() as int,
        )] is Occupied
}

/// No slot between the home of `k` and slot `j` is empty, so that a probe
/// for `k` gets as far as `j`.
spec fn path_clear<K: HashKey, V, S: HashStrategy<K>>(hs: S, s: Seq<Slot<K, V>>, k: K::V, j: int) -> bool {
    forall|e: int|
        0 <= e < dist(home(hs.hash_of(k), s.len() as int), j, s.len() as int) ==> !(#[trigger] s[step(
            home(hs.hash_of(k), s.len() as int),
            e,
            s.len() as int,
        )] is Empty)
}

/// The invariant of the slots: a probe for the key of a pair gets as far as
/// the slot of the pair, and no two pairs have the same key.
spec fn table_wf<K: HashKey, V, S: HashStrategy<K>>(hs: S, s: Seq<Slot<K, V>>) -> bool {
    &&& forall|j: int, k: K::V|
        0 <= j < s.len() && #[trigger] holds_key(s[j], k) ==> path_clear(hs, s, k, j)
    &&& forall|i: int, j: int, k: K::V|
        0 <= i < s.len() && 0 <= j < s.len() && #[trigger] holds_key(s[i], k) && #[trigger] holds_key(
            s[j],
            k,
        ) ==> i == j
}

/// Some slot holds a pair for `k`.
spec fn has_key<K: HashKey, V>(s: Seq<Slot<K, V>>, k: K::V) -> bool {
    exists|j: int| 0 <= j < s.len() && #[trigger] holds_key(s[j], k)
}

/// The value of the pair for `k`.
spec fn value_of<K: HashKey, V>(s: Seq<Slot<K, V>>, k: K::V) -> V {
    let j = choose|j: int| 0 <= j < s.len() && #[trigger] holds_key(s[j], k);
    s[j]->Occupied_1
}

/// The map that the slots stand for.
spec fn table_map<K: HashKey, V>(s: Seq<Slot<K, V>>) -> Map<K::V, V> {
    Map::new(|k: K::V| has_key(s, k), |k: K::V| value_of(s, k))
}

/// Changing one slot changes the number of pairs by what the slot gains or
/// loses.
proof fn lemma_count_update<K, V>(s: Seq<Slot<K, V>>, i: int, slot: Slot<K, V>)
    requires
        0 <= i < s.len(),
    ensures
        occupied_count(s.update(i, slot)) + (if s[i] is Occupied {
            1nat
        } else {
            0nat
        }) == occupied_count(s) + (if slot is Occupied {
            1nat
        } else {
            0nat
        }),
        occupied_count(s) <= s.len(),
    decreases s.len(),
{
    let t = s.update(i, slot);
    if i == s.len() - 1 {
        assert(t.drop_last() =~= s.drop_last());
        lemma_count_bound(s.drop_last());
    } else {
        assert(t.drop_last() =~= s.drop_last().update(i, slot));
        lemma_count_update(s.drop_last(), i, slot);
    }
}

/// There are no more pairs than slots, and where there are as many, every
/// slot holds a pair.
proof fn lemma_count_bound<K, V>(s: Seq<Slot<K, V>>)
    ensures
        occupied_count(s) <= s.len(),
        occupied_count(s) == s.len() <==> forall|j: int|
            0 <= j < s.len() ==> #[trigger] s[j] is Occupied,
        (forall|j: int| 0 <= j < s.len() ==> !(#[trigger] s[j] is Occupied)) ==> occupied_count(s)
            == 0,
    decreases s.len(),
{
    if s.len() > 0 {
        let d = s.drop_last();
        lemma_count_bound(d);
        if occupied_count(s) == s.len() {
            assert forall|j: int| 0 <= j < s.len() implies #[trigger] s[j] is Occupied by {
                if j < s.len() - 1 {
                    assert(d[j] is Occupied);
                }
            }
        }
        if forall|j: int| 0 <= j < s.len() ==> #[trigger] s[j] is Occupied {
            assert forall|j: int| 0 <= j < d.len() implies #[trigger] d[j] is Occupied by {
                assert(s[j] is Occupied);
            }
        }
        if forall|j: int| 0 <= j < s.len() ==> !(#[trigger] s[j] is Occupied) {
            assert forall|j: int| 0 <= j < d.len() implies !(#[trigger] d[j] is Occupied) by {
                assert(!(s[j] is Occupied));
            }
        }
    }
}

/// In a table that meets its invariant, the value of a key is the value in
/// the slot that holds the key.
proof fn lemma_lookup<K: HashKey, V, S: HashStrategy<K>>(hs: S, s: Seq<Slot<K, V>>, i: int, k: K::V)
    requires
        table_wf(hs, s),
        0 <= i < s.len(),
        holds_key(s[i], k),
    ensures
        has_key(s, k),
        value_of(s, k) == s[i]->Occupied_1,
        table_map(s).contains_key(k),
        table_map(s)[k] == s[i]->Occupied_1,
{
    let j = choose|j: int| 0 <= j < s.len() && #[trigger] holds_key(s[j], k);
    assert(holds_key(s[j], k) && holds_key(s[i], k));
}

/// What writing a pair into slot `i` leaves, where the slot was free and on
/// the probe path of the key, which the table did not have, or where the
/// slot held the key.
proof fn lemma_written<K: HashKey, V, S: HashStrategy<K>>(hs: S, s: Seq<Slot<K, V>>, i: int, key: K, value: V)
    requires
        table_wf(hs, s),
        0 <= i < s.len(),
        holds_key(s[i], key@) || (!(s[i] is Occupied) && !has_key(s, key@) && path_clear(hs,
            s,
            key@,
            i,
        )),
    ensures
        table_wf(hs, s.update(i, Slot::Occupied(key, value))),
        table_map(s.update(i, Slot::Occupied(key, value))) == table_map(s).insert(key@, value),
        occupied_count(s.update(i, Slot::Occupied(key, value))) == if s[i] is Occupied {
            occupied_count(s)
        } else {
            occupied_count(s) + 1
        },
{
    let t = s.update(i, Slot::Occupied(key, value));
    lemma_count_update(s, i, Slot::Occupied(key, value));
    assert forall|j: int, k: K::V| 0 <= j < t.len() && #[trigger] holds_key(t[j], k) implies path_clear(hs,
        t,
        k,
        j,
    ) by {
        if j != i {
            assert(holds_key(s[j], k));
        }
        assert(path_clear(hs, s, k, j));
        let h = home(hs.hash_of(k), s.len() as int);
        assert forall|e: int| 0 <= e < dist(h, j, s.len() as int) implies !(#[trigger] t[step(
            h,
            e,
            s.len() as int,
        )] is Empty) by {
            assert(!(s[step(h, e, s.len() as int)] is Empty) || step(h, e, s.len() as int) == i);
        }
    }
    assert forall|a: int, b: int, k: K::V|
        0 <= a < t.len() && 0 <= b < t.len() && #[trigger] holds_key(t[a], k) && #[trigger] holds_key(
            t[b],
            k,
        ) implies a == b by {
        if a != i {
            assert(holds_key(s[a], k));
        }
        if b != i {
            assert(holds_key(s[b], k));
        }
        if a == i && b != i {
            assert(holds_key(s[b], key@));
            if holds_key(s[i], key@) {
            }
        }
        if b == i && a != i {
            assert(holds_key(s[a], key@));
        }
    }
    assert forall|k: K::V| has_key(t, k) == (k == key@ || has_key(s, k)) by {
        if has_key(t, k) {
            let j = choose|j: int| 0 <= j < t.len() && #[trigger] holds_key(t[j], k);
            if j != i {
                assert(holds_key(s[j], k));
            }
        }
        if k == key@ {
            assert(holds_key(t[i], k));
        } else if has_key(s, k) {
            let j = choose|j: int| 0 <= j < s.len() && #[trigger] holds_key(s[j], k);
            assert(j != i);
            assert(holds_key(t[j], k));
        }
    }
    assert forall|k: K::V| has_key(t, k) implies value_of(t, k) == if k == key@ {
        value
    } else {
        value_of(s, k)
    } by {
        if k == key@ {
            assert(holds_key(t[i], k));
            lemma_lookup(hs, t, i, k);
        } else {
            let j = choose|j: int| 0 <= j < s.len() && #[trigger] holds_key(s[j], k);
            assert(j != i);
            assert(holds_key(t[j], k));
            lemma_lookup(hs, t, j, k);
            lemma_lookup(hs, s, j, k);
        }
    }
    assert(table_map(t) =~= table_map(s).insert(key@, value));
}

/// What turning the slot of a key into a tombstone leaves.
proof fn lemma_buried<K: HashKey, V, S: HashStrategy<K>>(hs: S, s: Seq<Slot<K, V>>, i: int, k: K::V)
    requires
        table_wf(hs, s),
        0 <= i < s.len(),
        holds_key(s[i], k),
    ensures
        table_wf(hs, s.update(i, Slot::Tombstone)),
        table_map(s.update(i, Slot::Tombstone)) == table_map(s).remove(k),
        occupied_count(s.update(i, Slot::Tombstone)) + 1 == occupied_count(s),
{
    let t = s.update(i, Slot::<K, V>::Tombstone);
    lemma_count_update(s, i, Slot::<K, V>::Tombstone);
    assert forall|j: int, k2: K::V|
        0 <= j < t.len() && #[trigger] holds_key(t[j], k2) implies path_clear(hs, t, k2, j) by {
        assert(holds_key(s[j], k2));
        assert(path_clear(hs, s, k2, j));
        let h = home(hs.hash_of(k2), s.len() as int);
        assert forall|e: int| 0 <= e < dist(h, j, s.len() as int) implies !(#[trigger] t[step(
            h,
            e,
            s.len() as int,
        )] is Empty) by {
            assert(!(s[step(h, e, s.len() as int)] is Empty) || step(h, e, s.len() as int) == i);
        }
    }
    assert forall|a: int, b: int, k2: K::V|
        0 <= a < t.len() && 0 <= b < t.len() && #[trigger] holds_key(t[a], k2) && #[trigger] holds_key(
            t[b],
            k2,
        ) implies a == b by {
        assert(holds_key(s[a], k2));
        assert(holds_key(s[b], k2));
    }
    assert forall|k2: K::V| has_key(t, k2) == (k2 != k && has_key(s, k2)) by {
        if has_key(t, k2) {
            let j = choose|j: int| 0 <= j < t.len() && #[trigger] holds_key(t[j], k2);
            assert(holds_key(s[j], k2));
            if k2 == k {
                assert(holds_key(s[i], k2));
            }
        }
        if k2 != k && has_key(s, k2) {
            let j = choose|j: int| 0 <= j < s.len() && #[trigger] holds_key(s[j], k2);
            assert(j != i);
            assert(holds_key(t[j], k2));
        }
    }
    assert forall|k2: K::V| has_key(t, k2) implies value_of(t, k2) == value_of(s, k2) by {
        let j = choose|j: int| 0 <= j < t.len() && #[trigger] holds_key(t[j], k2);
        assert(holds_key(s[j], k2));
        lemma_lookup(hs, t, j, k2);
        lemma_lookup(hs, s, j, k2);
    }
    assert(table_map(t) =~= table_map(s).remove(k));
}

/// A table of empty slots meets the invariant and stands for the empty map.
proof fn lemma_blank<K: HashKey, V, S: HashStrategy<K>>(hs: S, s: Seq<Slot<K, V>>)
    requires
        forall|j: int| 0 <= j < s.len() ==> #[trigger] s[j] is Empty,
    ensures
        table_wf(hs, s),
        table_map(s) == Map::<K::V, V>::empty(),
        occupied_count(s) == 0,
{
    lemma_count_bound(s);
    assert forall|j: int| 0 <= j < s.len() implies !(#[trigger] s[j] is Occupied) by {
        assert(s[j] is Empty);
    }
    assert forall|k: K::V| !has_key(s, k) by {
        if has_key(s, k) {
            let j = choose|j: int| 0 <= j < s.len() && #[trigger] holds_key(s[j], k);
            assert(s[j] is Empty);
        }
    }
    assert(table_map(s) =~= Map::<K::V, V>::empty());
}

/// What a probe found.
enum Probe {
    /// The key is in this slot.
    Found(usize),
    /// The key is not in the table; this slot is free and on its probe path.
    Free(usize),
    /// The key is not in the table, and every slot holds a pair.
    Full,
}

impl<K: HashKey, V> CroMap<K, V, KeyHash> {
    /// An empty map with the default capacity of 16 slots.
    pub fn new() -> (map: Self)
        ensures
            map.wf(),
            map@ == Map::<K::V, V>::empty(),
            map.spec_cap() == 16,
    {
        Self::with_cap_and_hasher(16, KeyHash)
    }

    /// An empty map with `cap` slots.
    pub fn with_cap(cap: usize) -> (map: Self)
        ensures
            map.wf(),
            map@ == Map::<K::V, V>::empty(),
            map.spec_cap() == cap,
    {
        Self::with_cap_and_hasher(cap, KeyHash)
    }
}

impl<K, V, S> CroMap<K, V, S> {
    /// The number of slots of the table.
    pub closed spec fn spec_cap(&self) -> usize {
        self.slots.spec_cap()
    }

    /// The strategy that hashes the keys of the map.
    pub closed spec fn spec_hasher(&self) -> S {
        self.hasher
    }
}

impl<K: HashKey, V, S> View for CroMap<K, V, S> {
    type V = Map<K::V, V>;

    closed spec fn view(&self) -> Map<K::V, V> {
        table_map(self.slots@)
    }
}

impl<K: HashKey, V, S: HashStrategy<K>> CroMap<K, V, S> {
    /// The invariant of the map: every slot of its capacity is in use as a
    /// slot, the pairs are within the load ceiling, a probe for the key of
    /// a pair gets as far as the slot of the pair, and no key occurs twice.
    pub closed spec fn wf(&self) -> bool {
        &&& self.slots.wf()
        &&& self.slots@.len() == self.slots.spec_cap()
        &&& self.size == occupied_count(self.slots@)
        &&& self.size <= load_ceiling(self.slots.spec_cap())
        &&& table_wf(self.hasher, self.slots@)
        &&& self@.dom().finite()
        &&& self@.len() == self.size
    }

    /// A map that meets its invariant holds no more pairs than its load
    /// ceiling allows, and finitely many.
    pub proof fn lemma_within_load(&self)
        requires
            self.wf(),
        ensures
            self@.dom().finite(),
            self@.len() <= load_ceiling(self.spec_cap()),
    {
    }

    /// Probes for `key`: from its home slot on, one slot at a time and
    /// around the end, until the key or an empty slot is met or every slot
    /// has been seen. Where the key is not met, the free slot is the first
    /// slot on the way that holds no pair: the first tombstone, or else the
    /// empty slot.
    fn find_slot(&self, key: &K) -> (r: Probe)
        requires
            self.wf(),
            self.slots@.len() > 0,
        ensures
            match r {
                Probe::Found(i) => i < self.slots@.len() && holds_key(
                    self.slots@[i as int],
                    key@,
                ),
                Probe::Free(i) => {
                    &&& i < self.slots@.len()
                    &&& !has_key(self.slots@, key@)
                    &&& !(self.slots@[i as int] is Occupied)
                    &&& path_clear(self.hasher, self.slots@, key@, i as int)
                    &&& path_full(self.hasher, self.slots@, key@, i as int)
                },
                Probe::Full => !has_key(self.slots@, key@) && occupied_count(self.slots@)
                    == self.slots@.len(),
            },
    {
        let cap: usize = self.slots.size();
        let h: usize = (self.hasher.hash(key) % (cap as u64)) as usize;
        let ghost hs = self.hasher;
        let ghost s = self.slots@;
        let ghost n = cap as int;
        assert(h as int == home(hs.hash_of(key@), n));
        let mut index: usize = h;
        let mut seen: usize = 0;
        let mut first_tomb: Option<usize> = None;
        while seen < cap
            invariant
                self.wf(),
                hs == self.hasher,
                s == self.slots@,
                n == s.len(),
                n == cap,
                h < cap,
                h as int == home(hs.hash_of(key@), n),
                seen <= cap,
                index < cap,
                index as int == step(h as int, seen as int, n),
                forall|e: int|
                    0 <= e < seen ==> !(#[trigger] s[step(h as int, e, n)] is Empty),
                forall|e: int|
                    0 <= e < seen ==> !holds_key(#[trigger] s[step(h as int, e, n)], key@),
                first_tomb is Some ==> first_tomb.unwrap() < cap,
                first_tomb is Some ==> !(s[first_tomb.unwrap() as int] is Occupied),
                first_tomb is Some ==> dist(h as int, first_tomb.unwrap() as int, n) < seen,
                first_tomb is Some ==> path_full(hs, s, key@, first_tomb.unwrap() as int),
                first_tomb is None ==> forall|e: int|
                    0 <= e < seen ==> #[trigger] s[step(h as int, e, n)] is Occupied,
            decreases cap - seen,
        {
            match self.slots.get(index) {
                Slot::Empty => {
                    let target: usize = match first_tomb {
                        Some(t) => t,
                        None => index,
                    };
                    proof {
                        Self::lemma_absent(hs, s, key@, seen as int);
                    }
                    return Probe::Free(target);
                },
                Slot::Occupied(k, _) => {
                    if k.same(key) {
                        return Probe::Found(index);
                    }
                },
                Slot::Tombstone => {
                    if first_tomb.is_none() {
                        first_tomb = Some(index);
                    }
                },
            }
            index = if index + 1 == cap {
                0
            } else {
                index + 1
            };
            seen = seen + 1;
        }
        proof {
            Self::lemma_absent(hs, s, key@, seen as int);
        }
        match first_tomb {
            Some(t) => Probe::Free(t),
            None => {
                proof {
                    assert forall|j: int| 0 <= j < n implies #[trigger] s[j] is Occupied by {
                        assert(step(h as int, dist(h as int, j, n), n) == j);
                    }
                    lemma_count_bound(s);
                }
                Probe::Full
            },
        }
    }

    /// A key that a probe has not met on its first `seen` steps, none of
    /// which was an empty slot, is not in the table if the next slot is
    /// empty or if every slot has been seen.
    proof fn lemma_absent(hs: S, s: Seq<Slot<K, V>>, k: K::V, seen: int)
        requires
            table_wf(hs, s),
            s.len() > 0,
            0 <= seen <= s.len(),
            forall|e: int|
                0 <= e < seen ==> !(#[trigger] s[step(
                    home(hs.hash_of(k), s.len() as int),
                    e,
                    s.len() as int,
                )] is Empty),
            forall|e: int|
                0 <= e < seen ==> !holds_key(
                    #[trigger] s[step(home(hs.hash_of(k), s.len() as int), e, s.len() as int)],
                    k,
                ),
            seen == s.len() || s[step(home(hs.hash_of(k), s.len() as int), seen, s.len() as int)] is Empty,
        ensures
            !has_key(s, k),
            forall|j: int|
                0 <= j < s.len() && dist(home(hs.hash_of(k), s.len() as int), j, s.len() as int) <= seen
                    ==> path_clear(hs, s, k, j),
    {
        let n = s.len() as int;
        let h = home(hs.hash_of(k), n);
        if has_key(s, k) {
            let j = choose|j: int| 0 <= j < s.len() && #[trigger] holds_key(s[j], k);
            let d = dist(h, j, n);
            assert(step(h, d, n) == j);
            assert(path_clear(hs, s, k, j));
            if d < seen {
                assert(!holds_key(s[step(h, d, n)], k));
            } else if d > seen {
                assert(!(s[step(h, seen, n)] is Empty));
            }
            assert(false);
        }
    }
}

impl<K: HashKey, V, S: HashStrategy<K>> CroMap<K, V, S> {
    /// A table of `cap` empty slots.
    fn blank_slots(cap: usize) -> (slots: CroVec<Slot<K, V>>)
        ensures
            slots.wf(),
            slots.spec_cap() == cap,
            slots@.len() == cap,
            forall|j: int| 0 <= j < slots@.len() ==> #[trigger] slots@[j] is Empty,
    {
        let mut slots = CroVec::with_cap(cap);
        let mut i: usize = 0;
        while i < cap
            invariant
                i <= cap,
                slots.wf(),
                slots.spec_cap() == cap,
                slots@.len() == i,
                forall|j: int| 0 <= j < slots@.len() ==> #[trigger] slots@[j] is Empty,
            decreases cap - i,
        {
            slots.push(Slot::Empty);
            i = i + 1;
        }
        slots
    }

    /// An empty map with the default capacity of 16 slots, whose keys the
    /// strategy `hasher` hashes.
    pub fn with_hasher(hasher: S) -> (map: Self)
        ensures
            map.wf(),
            map@ == Map::<K::V, V>::empty(),
            map.spec_cap() == 16,
            map.spec_hasher() == hasher,
    {
        Self::with_cap_and_hasher(16, hasher)
    }

    /// An empty map with `cap` slots, whose keys the strategy `hasher`
    /// hashes.
    pub fn with_cap_and_hasher(cap: usize, hasher: S) -> (map: Self)
        ensures
            map.wf(),
            map@ == Map::<K::V, V>::empty(),
            map.spec_cap() == cap,
            map.spec_hasher() == hasher,
    {
        let slots = Self::blank_slots(cap);
        proof {
            lemma_blank(hasher, slots@);
        }
        CroMap { slots, size: 0, hasher }
    }

    /// The strategy that hashes the keys of the map.
    pub fn hasher(&self) -> (hasher: &S)
        ensures
            *hasher == self.spec_hasher(),
    {
        &self.hasher
    }

    /// The number of pairs.
    pub fn size(&self) -> (n: usize)
        requires
            self.wf(),
        ensures
            n == self@.len(),
    {
        self.size
    }

    /// Whether the map holds no pair.
    pub fn is_empty(&self) -> (b: bool)
        requires
            self.wf(),
        ensures
            b == (self@.len() == 0),
    {
        self.size == 0
    }

    /// The number of slots.
    pub fn cap(&self) -> (n: usize)
        ensures
            n == self.spec_cap(),
    {
        self.slots.cap()
    }

    /// The value stored for `key`, if there is one.
    pub fn get(&self, key: &K) -> (r: Option<&V>)
        requires
            self.wf(),
        ensures
            r == match lookup(self@, key@) {
                Some(v) => Some(&v),
                None => None,
            },
    {
        let ghost hs = self.hasher;
        if self.slots.size() == 0 {
            assert(!has_key(self.slots@, key@));
            return None;
        }
        match self.find_slot(key) {
            Probe::Found(i) => {
                proof {
                    lemma_lookup(hs, self.slots@, i as int, key@);
                }
                match self.slots.get(i) {
                    Slot::Occupied(_, value) => Some(value),
                    _ => None,
                }
            },
            _ => None,
        }
    }

    /// Whether a value is stored for `key`.
    pub fn contains_key(&self, key: &K) -> (b: bool)
        requires
            self.wf(),
        ensures
            b == self@.contains_key(key@),
    {
        self.get(key).is_some()
    }

    /// The pair stored for `key`, if there is one: the key as the map holds
    /// it, and its value.
    pub fn get_key_value(&self, key: &K) -> (r: Option<(&K, &V)>)
        requires
            self.wf(),
        ensures
            r.is_some() == self@.contains_key(key@),
            r.is_some() ==> r.unwrap().0@ == key@ && *r.unwrap().1 == self@[key@],
    {
        let ghost hs = self.hasher;
        if self.slots.size() == 0 {
            assert(!has_key(self.slots@, key@));
            return None;
        }
        match self.find_slot(key) {
            Probe::Found(i) => {
                proof {
                    lemma_lookup(hs, self.slots@, i as int, key@);
                }
                match self.slots.get(i) {
                    Slot::Occupied(held, value) => Some((held, value)),
                    _ => None,
                }
            },
            _ => None,
        }
    }

    /// Removes the pair of `key` and returns it, if there is one: the key
    /// as the map held it, and its value. The slot of the pair becomes a
    /// tombstone; the capacity stays.
    pub fn remove_entry(&mut self, key: &K) -> (r: Option<(K, V)>)
        requires
            old(self).wf(),
        ensures
            final(self).wf(),
            final(self).spec_hasher() == old(self).spec_hasher(),
            final(self).spec_cap() == old(self).spec_cap(),
            final(self)@ == old(self)@.remove(key@),
            r.is_some() == old(self)@.contains_key(key@),
            r.is_some() ==> r.unwrap().0@ == key@ && r.unwrap().1 == old(self)@[key@],
    {
        let ghost hs = self.hasher;
        if self.slots.size() == 0 {
            assert(!has_key(self.slots@, key@));
            assert(self@.remove(key@) =~= self@);
            return None;
        }
        match self.find_slot(key) {
            Probe::Found(i) => {
                proof {
                    lemma_lookup(hs, self.slots@, i as int, key@);
                    lemma_buried(hs, self.slots@, i as int, key@);
                }
                let slot = self.slots.replace(i, Slot::Tombstone);
                self.size = self.size - 1;
                match slot {
                    Slot::Occupied(held, value) => Some((held, value)),
                    _ => None,
                }
            },
            _ => {
                assert(self@.remove(key@) =~= self@);
                None
            },
        }
    }

    /// Removes the pair of `key` and returns its value, if there is one.
    /// The slot of the pair becomes a tombstone; the capacity stays.
    pub fn remove(&mut self, key: &K) -> (r: Option<V>)
        requires
            old(self).wf(),
        ensures
            final(self).wf(),
            final(self).spec_hasher() == old(self).spec_hasher(),
            final(self).spec_cap() == old(self).spec_cap(),
            final(self)@ == old(self)@.remove(key@),
            r == lookup(old(self)@, key@),
    {
        let ghost hs = self.hasher;
        if self.slots.size() == 0 {
            assert(!has_key(self.slots@, key@));
            assert(self@.remove(key@) =~= self@);
            return None;
        }
        match self.find_slot(key) {
            Probe::Found(i) => {
                proof {
                    lemma_lookup(hs, self.slots@, i as int, key@);
                    lemma_buried(hs, self.slots@, i as int, key@);
                }
                let slot = self.slots.replace(i, Slot::Tombstone);
                self.size = self.size - 1;
                match slot {
                    Slot::Occupied(_, value) => Some(value),
                    _ => None,
                }
            },
            _ => {
                assert(self@.remove(key@) =~= self@);
                None
            },
        }
    }

    /// Writes the pair into the slot that a probe for its key found.
    fn place(&mut self, key: K, value: V) -> (r: Option<V>)
        requires
            old(self).wf(),
            old(self).slots@.len() > 0,
            old(self)@.len() + 1 <= load_ceiling(old(self).spec_cap()) || old(self)@.contains_key(
                key@,
            ),
        ensures
            final(self).wf(),
            final(self).spec_hasher() == old(self).spec_hasher(),
            final(self).spec_cap() == old(self).spec_cap(),
            final(self)@ == old(self)@.insert(key@, value),
            r == lookup(old(self)@, key@),
    {
        let ghost hs = self.hasher;
        match self.find_slot(&key) {
            Probe::Found(i) => {
                proof {
                    lemma_lookup(hs, self.slots@, i as int, key@);
                    lemma_written(hs, self.slots@, i as int, key, value);
                }
                let slot = self.slots.replace(i, Slot::Occupied(key, value));
                match slot {
                    Slot::Occupied(_, prev) => Some(prev),
                    _ => None,
                }
            },
            Probe::Free(i) => {
                proof {
                    lemma_written(hs, self.slots@, i as int, key, value);
                }
                let _ = self.slots.replace(i, Slot::Occupied(key, value));
                self.size = self.size + 1;
                None
            },
            Probe::Full => {
                // a table within its load ceiling has a slot without a pair
                proof {
                    assert(false);
                }
                None
            },
        }
    }
}

/// The map that the slots from `from` on stand for.
spec fn table_map_from<K: HashKey, V>(s: Seq<Slot<K, V>>, from: int) -> Map<K::V, V> {
    Map::new(
        |k: K::V| exists|j: int| from <= j < s.len() && #[trigger] holds_key(s[j], k),
        |k: K::V| value_of(s, k),
    )
}

/// Taking the slot before `from` along adds its pair, if it holds one.
proof fn lemma_map_from_step<K: HashKey, V, S: HashStrategy<K>>(hs: S, s: Seq<Slot<K, V>>, from: int)
    requires
        table_wf(hs, s),
        0 < from <= s.len(),
    ensures
        table_map_from(s, from - 1) == match s[from - 1] {
            Slot::Occupied(key, value) => table_map_from(s, from).insert(key@, value),
            _ => table_map_from(s, from),
        },
        match s[from - 1] {
            Slot::Occupied(key, value) => !table_map_from(s, from).contains_key(key@),
            _ => true,
        },
{
    let i = from - 1;
    let lhs = table_map_from(s, i);
    let rest = table_map_from(s, from);
    match s[i] {
        Slot::Occupied(key, value) => {
            assert(holds_key(s[i], key@));
            lemma_lookup(hs, s, i, key@);
            if rest.contains_key(key@) {
                let j = choose|j: int| from <= j < s.len() && #[trigger] holds_key(s[j], key@);
                assert(holds_key(s[j], key@) && holds_key(s[i], key@));
            }
            assert forall|k: K::V| lhs.contains_key(k) == (k == key@ || rest.contains_key(k)) by {
                if lhs.contains_key(k) {
                    let j = choose|j: int| i <= j < s.len() && #[trigger] holds_key(s[j], k);
                    if j != i {
                        assert(from <= j < s.len() && holds_key(s[j], k));
                    }
                }
                if rest.contains_key(k) {
                    let j = choose|j: int| from <= j < s.len() && #[trigger] holds_key(s[j], k);
                    assert(i <= j < s.len() && holds_key(s[j], k));
                }
            }
            assert(lhs =~= rest.insert(key@, value));
        },
        _ => {
            assert forall|k: K::V| lhs.contains_key(k) == rest.contains_key(k) by {
                if lhs.contains_key(k) {
                    let j = choose|j: int| i <= j < s.len() && #[trigger] holds_key(s[j], k);
                    assert(from <= j < s.len() && holds_key(s[j], k));
                }
                if rest.contains_key(k) {
                    let j = choose|j: int| from <= j < s.len() && #[trigger] holds_key(s[j], k);
                    assert(i <= j < s.len() && holds_key(s[j], k));
                }
            }
            assert(lhs =~= rest);
        },
    }
}

/// The map of the slots from the first on is the map of the table, and the
/// map of no slots is empty.
proof fn lemma_map_from_ends<K: HashKey, V>(s: Seq<Slot<K, V>>)
    ensures
        table_map_from(s, 0) == table_map(s),
        table_map_from(s, s.len() as int) == Map::<K::V, V>::empty(),
{
    assert(table_map_from(s, 0) =~= table_map(s));
    assert(table_map_from(s, s.len() as int) =~= Map::<K::V, V>::empty());
}

impl<K: HashKey, V, S: HashStrategy<K>> CroMap<K, V, S> {
    /// Moves every pair into a fresh table of `new_cap` slots, in which no
    /// tombstone is left. The count of pairs is built up again from nothing
    /// as the pairs go in.
    fn rehash(&mut self, new_cap: usize)
        requires
            old(self).wf(),
            old(self)@.len() <= load_ceiling(new_cap),
        ensures
            final(self).wf(),
            final(self).spec_hasher() == old(self).spec_hasher(),
            final(self).spec_cap() == new_cap,
            final(self)@ == old(self)@,
    {
        let ghost hs = self.hasher;
        let ghost prior = self.slots@;
        let ghost total = self.size;
        let mut old_slots = Self::blank_slots(new_cap);
        core::mem::swap(&mut self.slots, &mut old_slots);
        self.size = 0;
        proof {
            lemma_blank(hs, self.slots@);
            lemma_map_from_ends(prior);
            assert(prior.subrange(0, prior.len() as int) =~= prior);
        }
        while old_slots.size() > 0
            invariant
                self.wf(),
                self.spec_cap() == new_cap,
                self.hasher == hs,
                old_slots.wf(),
                table_wf(hs, prior),
                old_slots@ == prior.subrange(0, old_slots@.len() as int),
                old_slots@.len() <= prior.len(),
                self@ == table_map_from(prior, old_slots@.len() as int),
                self@.len() + occupied_count(old_slots@) == total,
                total <= load_ceiling(new_cap),
            decreases old_slots@.len(),
        {
            let ghost r = old_slots@.len() as int;
            proof {
                lemma_map_from_step(hs, prior, r);
                assert(old_slots@.drop_last() =~= prior.subrange(0, r - 1));
                assert(old_slots@.last() == prior[r - 1]);
            }
            match old_slots.pop() {
                Some(Slot::Occupied(key, value)) => {
                    assert(new_cap > 0);
                    let _ = self.place(key, value);
                },
                _ => {},
            }
        }
        proof {
            lemma_map_from_ends(prior);
        }
    }

    /// Computes `grown(cap, need)`.
    fn grow_for(cap: usize, need: usize) -> (c: usize)
        ensures
            c == grown(cap, need),
    {
        let mut c: usize = cap;
        while need > c - c / 4 && c != usize::MAX
            invariant
                grown(c, need) == grown(cap, need),
            decreases usize::MAX - c,
        {
            c = if c == 0 {
                1
            } else if c <= usize::MAX / 2 {
                2 * c
            } else {
                usize::MAX
            };
        }
        c
    }

    /// Stores `value` for `key` and returns the value that the key had, if
    /// it had one. Where one more pair would not fit under the load
    /// ceiling, the table first grows to `grown` its capacity by a rehash.
    pub fn insert(&mut self, key: K, value: V) -> (r: Option<V>)
        requires
            old(self).wf(),
            old(self)@.len() < load_ceiling(usize::MAX),
        ensures
            final(self).wf(),
            final(self).spec_hasher() == old(self).spec_hasher(),
            final(self)@ == old(self)@.insert(key@, value),
            r == lookup(old(self)@, key@),
            final(self).spec_cap() == grown(
                old(self).spec_cap(),
                (old(self)@.len() + 1) as usize,
            ),
            final(self)@.len() <= load_ceiling(final(self).spec_cap()),
    {
        let need: usize = self.size + 1;
        let cap: usize = self.slots.cap();
        if need > cap - cap / 4 {
            let new_cap: usize = Self::grow_for(cap, need);
            proof {
                lemma_grown_fits(cap, need);
            }
            self.rehash(new_cap);
        }
        self.place(key, value)
    }
}

/// A grown capacity is no smaller than the capacity was, and has room under
/// its load ceiling for what it was grown for, if any capacity has.
pub proof fn lemma_grown_fits(cap: usize, need: usize)
    ensures
        grown(cap, need) >= cap,
        need <= load_ceiling(usize::MAX) ==> need <= load_ceiling(grown(cap, need)),
    decreases usize::MAX - cap,
{
    if !(need <= load_ceiling(cap) || cap == usize::MAX) {
        lemma_grown_fits(doubled(cap), need);
    }
}

/// `pairs` lists the map `m`: each pair of `m` once, under a key with the
/// view that `m` has it under, and nothing else.
pub open spec fn lists<K: View, V>(pairs: Seq<(K, V)>, m: Map<K::V, V>) -> bool {
    &&& pairs.len() == m.len()
    &&& forall|i: int|
        0 <= i < pairs.len() ==> m.contains_key((#[trigger] pairs[i]).0@) && m[pairs[i].0@]
            == pairs[i].1
    &&& forall|i: int, j: int|
        0 <= i < j < pairs.len() ==> (#[trigger] pairs[i]).0@ != (#[trigger] pairs[j]).0@
    &&& forall|k: K::V|
        m.contains_key(k) ==> exists|i: int| 0 <= i < pairs.len() && (#[trigger] pairs[i]).0@ == k
}

/// The pairs in the slots up to `upto`, in the order of the slots.
spec fn pairs_upto<K, V>(s: Seq<Slot<K, V>>, upto: int) -> Seq<(K, V)>
    decreases upto,
{
    if upto <= 0 {
        Seq::empty()
    } else {
        match s[upto - 1] {
            Slot::Occupied(key, value) => pairs_upto(s, upto - 1).push((key, value)),
            _ => pairs_upto(s, upto - 1),
        }
    }
}

/// The pairs in the slots up to `upto` are the pairs of those slots, each
/// once.
proof fn lemma_pairs_upto<K: HashKey, V, S: HashStrategy<K>>(hs: S, s: Seq<Slot<K, V>>, upto: int)
    requires
        table_wf(hs, s),
        0 <= upto <= s.len(),
    ensures
        pairs_upto(s, upto).len() == occupied_count(s.subrange(0, upto)),
        forall|i: int|
            0 <= i < pairs_upto(s, upto).len() ==> exists|j: int|
                0 <= j < upto && #[trigger] s[j] == Slot::Occupied(
                    (#[trigger] pairs_upto(s, upto)[i]).0,
                    pairs_upto(s, upto)[i].1,
                ),
        forall|j: int|
            0 <= j < upto && #[trigger] s[j] is Occupied ==> exists|i: int|
                0 <= i < pairs_upto(s, upto).len() && (#[trigger] pairs_upto(s, upto)[i]).0
                    == s[j]->Occupied_0,
        forall|a: int, b: int|
            0 <= a < b < pairs_upto(s, upto).len() ==> (#[trigger] pairs_upto(s, upto)[a]).0@ != (
            #[trigger] pairs_upto(s, upto)[b]).0@,
    decreases upto,
{
    if upto > 0 {
        let p = pairs_upto(s, upto);
        let q = pairs_upto(s, upto - 1);
        lemma_pairs_upto(hs, s, upto - 1);
        assert(s.subrange(0, upto).drop_last() =~= s.subrange(0, upto - 1));
        assert(s.subrange(0, upto).last() == s[upto - 1]);
        assert forall|i: int| 0 <= i < p.len() implies exists|j: int|
            0 <= j < upto && #[trigger] s[j] == Slot::Occupied((#[trigger] p[i]).0, p[i].1) by {
            if i < q.len() {
                assert(p[i] == q[i]);
                let j = choose|j: int|
                    0 <= j < upto - 1 && #[trigger] s[j] == Slot::Occupied(q[i].0, q[i].1);
                assert(s[j] == Slot::Occupied(p[i].0, p[i].1));
            } else {
                assert(s[upto - 1] == Slot::Occupied(p[i].0, p[i].1));
            }
        }
        assert forall|j: int| 0 <= j < upto && #[trigger] s[j] is Occupied implies exists|i: int|
            0 <= i < p.len() && (#[trigger] p[i]).0 == s[j]->Occupied_0 by {
            if j < upto - 1 {
                let i = choose|i: int| 0 <= i < q.len() && (#[trigger] q[i]).0 == s[j]->Occupied_0;
                assert(p[i] == q[i]);
            } else {
                assert(p[p.len() - 1].0 == s[j]->Occupied_0);
            }
        }
        assert forall|a: int, b: int| 0 <= a < b < p.len() implies (#[trigger] p[a]).0@ != (
        #[trigger] p[b]).0@ by {
            if b < q.len() {
                assert(p[a] == q[a] && p[b] == q[b]);
            } else {
                assert(p[a] == q[a]);
                let j = choose|j: int|
                    0 <= j < upto - 1 && #[trigger] s[j] == Slot::Occupied(q[a].0, q[a].1);
                assert(holds_key(s[j], q[a].0@));
                if p[a].0@ == p[b].0@ {
                    assert(holds_key(s[upto - 1], q[a].0@));
                }
            }
        }
    } else {
        assert(s.subrange(0, upto) =~= Seq::<Slot<K, V>>::empty());
    }
}

/// The pairs in all the slots list the map of the table.
proof fn lemma_pairs_list<K: HashKey, V, S: HashStrategy<K>>(hs: S, s: Seq<Slot<K, V>>)
    requires
        table_wf(hs, s),
        table_map(s).dom().finite(),
        table_map(s).len() == occupied_count(s),
    ensures
        lists(pairs_upto(s, s.len() as int), table_map(s)),
{
    let p = pairs_upto(s, s.len() as int);
    let m = table_map(s);
    lemma_pairs_upto(hs, s, s.len() as int);
    assert(s.subrange(0, s.len() as int) =~= s);
    assert forall|i: int| 0 <= i < p.len() implies m.contains_key((#[trigger] p[i]).0@) && m[p[i].0@]
        == p[i].1 by {
        let j = choose|j: int|
            0 <= j < s.len() && #[trigger] s[j] == Slot::Occupied(p[i].0, p[i].1);
        assert(holds_key(s[j], p[i].0@));
        lemma_lookup(hs, s, j, p[i].0@);
    }
    assert forall|k: K::V| m.contains_key(k) implies exists|i: int|
        0 <= i < p.len() && (#[trigger] p[i]).0@ == k by {
        let j = choose|j: int| 0 <= j < s.len() && #[trigger] holds_key(s[j], k);
        assert(s[j] is Occupied);
        let i = choose|i: int| 0 <= i < p.len() && (#[trigger] p[i]).0 == s[j]->Occupied_0;
        assert(p[i].0@ == k);
    }
}

impl<K: HashKey, V, S: HashStrategy<K>> CroMap<K, V, S> {
    /// Drops every pair and every tombstone. The capacity stays.
    pub fn wipe(&mut self)
        requires
            old(self).wf(),
        ensures
            final(self).wf(),
            final(self).spec_hasher() == old(self).spec_hasher(),
            final(self).spec_cap() == old(self).spec_cap(),
            final(self)@ == Map::<K::V, V>::empty(),
    {
        let ghost hs = self.hasher;
        let cap: usize = self.slots.cap();
        self.slots = Self::blank_slots(cap);
        self.size = 0;
        proof {
            lemma_blank(hs, self.slots@);
        }
    }

    /// Makes room for `additional` more pairs: where they would not fit
    /// under the load ceiling, the table grows to `grown` its capacity by a
    /// rehash.
    pub fn reserve(&mut self, additional: usize)
        requires
            old(self).wf(),
            old(self)@.len() + additional <= load_ceiling(usize::MAX),
        ensures
            final(self).wf(),
            final(self).spec_hasher() == old(self).spec_hasher(),
            final(self)@ == old(self)@,
            final(self).spec_cap() == grown(
                old(self).spec_cap(),
                (old(self)@.len() + additional) as usize,
            ),
            final(self)@.len() + additional <= load_ceiling(final(self).spec_cap()),
    {
        let need: usize = self.size + additional;
        let cap: usize = self.slots.cap();
        if need > cap - cap / 4 {
            let new_cap: usize = Self::grow_for(cap, need);
            proof {
                lemma_grown_fits(cap, need);
            }
            self.rehash(new_cap);
        }
    }

    /// Shrinks the table to the capacity that `min_cap` grows to for the
    /// pairs of the map, by a rehash, if that is less than the capacity is.
    pub fn shrink_to(&mut self, min_cap: usize)
        requires
            old(self).wf(),
        ensures
            final(self).wf(),
            final(self).spec_hasher() == old(self).spec_hasher(),
            final(self)@ == old(self)@,
            final(self).spec_cap() == if grown(min_cap, old(self)@.len() as usize) < old(self).spec_cap() {
                grown(min_cap, old(self)@.len() as usize)
            } else {
                old(self).spec_cap()
            },
    {
        let new_cap: usize = Self::grow_for(min_cap, self.size);
        if new_cap < self.slots.cap() {
            proof {
                lemma_grown_fits(min_cap, self.size);
            }
            self.rehash(new_cap);
        }
    }

    /// Shrinks the table as far as the pairs of the map allow.
    pub fn shrink_to_fit(&mut self)
        requires
            old(self).wf(),
        ensures
            final(self).wf(),
            final(self).spec_hasher() == old(self).spec_hasher(),
            final(self)@ == old(self)@,
            final(self).spec_cap() == if grown(0, old(self)@.len() as usize) < old(self).spec_cap() {
                grown(0, old(self)@.len() as usize)
            } else {
                old(self).spec_cap()
            },
    {
        self.shrink_to(0);
    }

    /// The pairs of the map, in the order of their slots.
    pub fn iter(&self) -> (items: CroVec<(&K, &V)>)
        requires
            self.wf(),
        ensures
            items.wf(),
            lists(unref(items@), self@),
    {
        let ghost hs = self.hasher;
        let n: usize = self.slots.size();
        let mut items: CroVec<(&K, &V)> = CroVec::with_cap(self.size);
        let mut c: usize = 0;
        assert(unref(items@) =~= pairs_upto(self.slots@, 0));
        while c < n
            invariant
                c <= n,
                n == self.slots@.len(),
                self.wf(),
                hs == self.hasher,
                items.wf(),
                unref(items@) == pairs_upto(self.slots@, c as int),
            decreases n - c,
        {
            proof {
                lemma_pairs_upto(hs, self.slots@, c as int);
                lemma_count_bound(self.slots@.subrange(0, c as int));
                assert(unref(items@).len() == items@.len());
            }
            let ghost prev = items@;
            match self.slots.get(c) {
                Slot::Occupied(key, value) => {
                    items.push((key, value));
                    assert(unref(items@) =~= unref(prev).push((*key, *value)));
                },
                _ => {},
            }
            c = c + 1;
        }
        proof {
            lemma_pairs_list(hs, self.slots@);
        }
        items
    }

    /// Moves every pair out of the map, in the order of their slots, and
    /// leaves the map empty, with the capacity it had.
    pub fn drain(&mut self) -> (pairs: CroVec<(K, V)>)
        requires
            old(self).wf(),
        ensures
            final(self).wf(),
            final(self).spec_hasher() == old(self).spec_hasher(),
            final(self).spec_cap() == old(self).spec_cap(),
            final(self)@ == Map::<K::V, V>::empty(),
            pairs.wf(),
            lists(pairs@, old(self)@),
    {
        let ghost hs = self.hasher;
        let ghost prior = self.slots@;
        let n: usize = self.slots.size();
        let mut pairs: CroVec<(K, V)> = CroVec::with_cap(self.size);
        let mut c: usize = 0;
        while c < n
            invariant
                c <= n,
                n == prior.len(),
                table_wf(hs, prior),
                pairs.wf(),
                self.slots.wf(),
                self.hasher == hs,
                self.slots.spec_cap() == old(self).slots.spec_cap(),
                self.slots@.len() == n,
                pairs@ == pairs_upto(prior, c as int),
                forall|j: int| 0 <= j < c ==> #[trigger] self.slots@[j] is Empty,
                forall|j: int| c <= j < n ==> #[trigger] self.slots@[j] == prior[j],
            decreases n - c,
        {
            proof {
                lemma_pairs_upto(hs, prior, c as int);
                lemma_count_bound(prior.subrange(0, c as int));
            }
            match self.slots.replace(c, Slot::Empty) {
                Slot::Occupied(key, value) => {
                    pairs.push((key, value));
                },
                _ => {},
            }
            c = c + 1;
        }
        self.size = 0;
        proof {
            lemma_blank(hs, self.slots@);
            lemma_pairs_list(hs, prior);
        }
        pairs
    }
}

impl<K: HashKey, V, S: HashStrategy<K>> CroMap<K, V, S> {
    /// Mutable access to the value stored for `key`, if there is one. What
    /// is written through it becomes the value of `key`; nothing else
    /// changes.
    pub fn get_mut(&mut self, key: &K) -> (r: Option<&mut V>)
        requires
            old(self).wf(),
        ensures
            final(self).wf(),
            final(self).spec_hasher() == old(self).spec_hasher(),
            final(self).spec_cap() == old(self).spec_cap(),
            match r {
                Some(v) => {
                    &&& old(self)@.contains_key(key@)
                    &&& *v == old(self)@[key@]
                    &&& final(self)@ == old(self)@.insert(key@, *final(v))
                },
                None => !old(self)@.contains_key(key@) && final(self)@ == old(self)@,
            },
    {
        let ghost hs = self.hasher;
        if self.slots.size() == 0 {
            assert(!has_key(self.slots@, key@));
            return None;
        }
        let ghost s = self.slots@;
        match self.find_slot(key) {
            Probe::Found(i) => {
                proof {
                    lemma_lookup(hs, s, i as int, key@);
                    let held = s[i as int]->Occupied_0;
                    assert forall|value: V|
                        table_wf(hs, #[trigger] s.update(i as int, Slot::Occupied(held, value)))
                            && table_map(s.update(i as int, Slot::Occupied(held, value)))
                            == table_map(s).insert(key@, value) && occupied_count(
                            s.update(i as int, Slot::Occupied(held, value)),
                        ) == occupied_count(s) by {
                        lemma_written(hs, s, i as int, held, value);
                    }
                }
                match self.slots.get_mut(i) {
                    Slot::Occupied(_, value) => Some(value),
                    _ => None,
                }
            },
            _ => None,
        }
    }
}

} // verus!
