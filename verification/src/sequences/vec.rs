//! The array engine: a growable array that tracks its own capacity.
//!
//! A `CroVec` stands for the sequence of its live elements (`@`) together
//! with a capacity (`spec_cap`). Growth is explicit and deterministic, so the
//! capacity after every operation is part of each contract.

use crate::order::{is_le, le, lemma_le_chain, total_preorder};
use vstd::multiset::Multiset;
use vstd::prelude::*;
use vstd::seq_lib::{to_multiset_build, to_multiset_update};

verus! {

/// A growable array of `T`.
pub struct CroVec<T> {
    data: Vec<T>,
    cap: usize,
}

/// The capacity that an append grows a full array of capacity `cap` to: twice
/// as much, at least one, and never past `usize::MAX`.
pub open spec fn doubled(cap: usize) -> usize {
    if cap == 0 {
        1
    } else if cap <= usize::MAX / 2 {
        (2 * cap) as usize
    } else {
        usize::MAX
    }
}

/// The capacity that `reserve` grows an array of capacity `cap` to when it
/// needs room for `needed` elements: `cap` itself if that is enough, exactly
/// `needed` for an array that had no buffer yet, and otherwise `cap` doubled
/// until it is enough.
pub open spec fn reserved(cap: usize, needed: usize) -> usize
    decreases (if needed > cap { needed - cap } else { 0 }),
{
    if cap >= needed {
        cap
    } else if cap == 0 {
        needed
    } else {
        reserved(doubled(cap), needed)
    }
}

impl<T> View for CroVec<T> {
    type V = Seq<T>;

    closed spec fn view(&self) -> Seq<T> {
        self.data@
    }
}

impl<T> CroVec<T> {
    /// The number of elements that fit before the array grows again.
    pub closed spec fn spec_cap(&self) -> usize {
        self.cap
    }

    /// The invariant of the array: the live elements fit in the capacity.
    pub open spec fn wf(&self) -> bool {
        self@.len() <= self.spec_cap()
    }

    /// An empty array without a buffer.
    pub fn new() -> (v: Self)
        ensures
            v.wf(),
            v@ == Seq::<T>::empty(),
            v.spec_cap() == 0,
    {
        CroVec { data: Vec::new(), cap: 0 }
    }

    /// An empty array with room for exactly `cap` elements.
    pub fn with_cap(cap: usize) -> (v: Self)
        ensures
            v.wf(),
            v@ == Seq::<T>::empty(),
            v.spec_cap() == cap,
    {
        CroVec { data: Vec::with_capacity(cap), cap }
    }

    /// The number of live elements.
    pub fn size(&self) -> (n: usize)
        ensures
            n == self@.len(),
    {
        self.data.len()
    }

    /// The current capacity.
    pub fn cap(&self) -> (n: usize)
        ensures
            n == self.spec_cap(),
    {
        self.cap
    }

    /// Whether the array holds no element.
    pub fn is_empty(&self) -> (b: bool)
        ensures
            b == (self@.len() == 0),
    {
        self.data.len() == 0
    }

    /// The element at `index`.
    pub fn get(&self, index: usize) -> (r: &T)
        requires
            index < self@.len(),
        ensures
            *r == self@[index as int],
    {
        &self.data[index]
    }

    /// Mutable access to the element at `index`; nothing else changes.
    pub fn get_mut(&mut self, index: usize) -> (r: &mut T)
        requires
            index < old(self)@.len(),
        ensures
            *r == old(self)@[index as int],
            final(self)@ == old(self)@.update(index as int, *final(r)),
            final(self).spec_cap() == old(self).spec_cap(),
    {
        &mut self.data[index]
    }

    /// Overwrites the element at `index` and hands back the one that was there.
    pub fn replace(&mut self, index: usize, value: T) -> (prev: T)
        requires
            index < old(self)@.len(),
        ensures
            prev == old(self)@[index as int],
            final(self)@ == old(self)@.update(index as int, value),
            final(self).spec_cap() == old(self).spec_cap(),
    {
        let mut value = value;
        core::mem::swap(&mut self.data[index], &mut value);
        value
    }

    /// Grows the capacity to exactly `new_cap` where that is more than it is now.
    fn grow_to(&mut self, new_cap: usize)
        requires
            old(self).wf(),
        ensures
            final(self).wf(),
            final(self)@ == old(self)@,
            final(self).spec_cap() == if new_cap > old(self).spec_cap() {
                new_cap
            } else {
                old(self).spec_cap()
            },
    {
        if new_cap > self.cap {
            let len: usize = self.data.len();
            self.data.reserve(new_cap - len);
            self.cap = new_cap;
        }
    }

    /// Appends `value`. A full array first grows to `doubled` its capacity.
    pub fn push(&mut self, value: T)
        requires
            old(self).wf(),
            old(self)@.len() < usize::MAX,
        ensures
            final(self).wf(),
            final(self)@ == old(self)@.push(value),
            final(self)@ == after_op(old(self)@, EndOp::Append(value)),
            final(self).spec_cap() == if old(self)@.len() == old(self).spec_cap() {
                doubled(old(self).spec_cap())
            } else {
                old(self).spec_cap()
            },
            final(self).spec_cap() >= old(self).spec_cap(),
    {
        if self.data.len() == self.cap {
            let new_cap: usize = Self::double(self.cap);
            self.grow_to(new_cap);
        }
        self.data.push(value);
    }

    /// Computes `doubled(cap)`.
    fn double(cap: usize) -> (c: usize)
        ensures
            c == doubled(cap),
    {
        if cap == 0 {
            1
        } else if cap <= usize::MAX / 2 {
            2 * cap
        } else {
            usize::MAX
        }
    }

    /// Removes and returns the last element, or `None` from an empty array.
    /// The capacity stays.
    pub fn pop(&mut self) -> (r: Option<T>)
        requires
            old(self).wf(),
        ensures
            final(self).wf(),
            final(self).spec_cap() == old(self).spec_cap(),
            old(self)@.len() == 0 ==> r.is_none(),
            old(self)@.len() == 0 ==> final(self)@ == old(self)@,
            old(self)@.len() > 0 ==> r == Some(old(self)@.last()),
            old(self)@.len() > 0 ==> final(self)@ == old(self)@.drop_last(),
            final(self)@ == after_op(old(self)@, EndOp::RemoveLast),
    {
        self.data.pop()
    }

    /// Inserts `value` at `index`, shifting the elements from there on one
    /// place up. A full array first grows to `doubled` its capacity.
    pub fn insert(&mut self, index: usize, value: T)
        requires
            old(self).wf(),
            index <= old(self)@.len(),
            old(self)@.len() < usize::MAX,
        ensures
            final(self).wf(),
            final(self)@ == old(self)@.insert(index as int, value),
            final(self).spec_cap() == if old(self)@.len() == old(self).spec_cap() {
                doubled(old(self).spec_cap())
            } else {
                old(self).spec_cap()
            },
            final(self).spec_cap() >= old(self).spec_cap(),
    {
        if self.data.len() == self.cap {
            let new_cap: usize = Self::double(self.cap);
            self.grow_to(new_cap);
        }
        self.data.insert(index, value);
    }

    /// Removes and returns the element at `index`, shifting the elements
    /// after it one place down. The capacity stays.
    pub fn remove(&mut self, index: usize) -> (r: T)
        requires
            old(self).wf(),
            index < old(self)@.len(),
        ensures
            final(self).wf(),
            r == old(self)@[index as int],
            final(self)@ == old(self)@.remove(index as int),
            final(self).spec_cap() == old(self).spec_cap(),
    {
        self.data.remove(index)
    }

    /// Removes and returns the element at `index` in constant time: the last
    /// element takes its place, so the order of the rest is not kept.
    pub fn swap_remove(&mut self, index: usize) -> (r: T)
        requires
            old(self).wf(),
            index < old(self)@.len(),
        ensures
            final(self).wf(),
            r == old(self)@[index as int],
            final(self)@ == old(self)@.update(index as int, old(self)@.last()).drop_last(),
            final(self).spec_cap() == old(self).spec_cap(),
    {
        self.data.swap_remove(index)
    }

    /// Exchanges the elements at `a` and `b`.
    pub fn swap(&mut self, a: usize, b: usize)
        requires
            old(self).wf(),
            a < old(self)@.len(),
            b < old(self)@.len(),
        ensures
            final(self).wf(),
            final(self)@ == old(self)@.update(a as int, old(self)@[b as int]).update(
                b as int,
                old(self)@[a as int],
            ),
            final(self).spec_cap() == old(self).spec_cap(),
    {
        if a == b {
            assert(self@ =~= old(self)@.update(a as int, old(self)@[b as int]).update(
                b as int,
                old(self)@[a as int],
            ));
            return ;
        }
        let lo: usize = if a < b { a } else { b };
        let hi: usize = if a < b { b } else { a };
        let last: usize = self.data.len() - 1;
        // take the upper element out, trade it for the lower one, and put
        // that where the upper one was
        let upper = self.data.swap_remove(hi);
        let mut lower = upper;
        core::mem::swap(&mut self.data[lo], &mut lower);
        self.data.push(lower);
        if hi != last {
            let moved = self.data.swap_remove(hi);
            self.data.push(moved);
        }
        assert(self@ =~= old(self)@.update(a as int, old(self)@[b as int]).update(
            b as int,
            old(self)@[a as int],
        ));
    }

    /// Makes room for `additional` more elements: the capacity becomes
    /// `reserved` from what it was, for a total of the live elements plus
    /// `additional`.
    pub fn reserve(&mut self, additional: usize)
        requires
            old(self).wf(),
            old(self)@.len() + additional <= usize::MAX,
        ensures
            final(self).wf(),
            final(self)@ == old(self)@,
            final(self).spec_cap() == reserved(
                old(self).spec_cap(),
                (old(self)@.len() + additional) as usize,
            ),
            final(self).spec_cap() >= old(self).spec_cap(),
            final(self).spec_cap() >= old(self)@.len() + additional,
    {
        proof {
            lemma_capacity_grows(self.cap, (self@.len() + additional) as usize);
        }
        let needed: usize = self.data.len() + additional;
        let mut target: usize = self.cap;
        if target == 0 {
            target = needed;
        }
        while target < needed
            invariant
                target > 0 || needed == 0,
                reserved(target, needed) == reserved(self.cap, needed),
            decreases (if needed > target { needed - target } else { 0 }),
        {
            target = Self::double(target);
        }
        self.grow_to(target);
    }

    /// Makes room for `additional` more elements without doubling: where the
    /// capacity is below the live elements plus `additional`, it becomes
    /// exactly that.
    pub fn reserve_exact(&mut self, additional: usize)
        requires
            old(self).wf(),
            old(self)@.len() + additional <= usize::MAX,
        ensures
            final(self).wf(),
            final(self)@ == old(self)@,
            final(self).spec_cap() == if old(self).spec_cap() < old(self)@.len() + additional {
                (old(self)@.len() + additional) as usize
            } else {
                old(self).spec_cap()
            },
            final(self).spec_cap() >= old(self).spec_cap(),
    {
        let needed: usize = self.data.len() + additional;
        self.grow_to(needed);
    }

    /// Drops the elements from position `len` on, last first. A `len` at or
    /// past the end changes nothing. The capacity stays.
    pub fn truncate(&mut self, len: usize)
        requires
            old(self).wf(),
        ensures
            final(self).wf(),
            final(self).spec_cap() == old(self).spec_cap(),
            len < old(self)@.len() ==> final(self)@ == old(self)@.subrange(0, len as int),
            len >= old(self)@.len() ==> final(self)@ == old(self)@,
    {
        while self.data.len() > len
            invariant
                self.cap == old(self).cap,
                len < old(self)@.len() ==> len <= self.data@.len() <= old(self)@.len(),
                len < old(self)@.len() ==> self.data@ == old(self)@.subrange(
                    0,
                    self.data@.len() as int,
                ),
                len >= old(self)@.len() ==> self.data@ == old(self)@,
            decreases self.data@.len(),
        {
            let _ = self.data.pop();
            assert(self.data@ =~= old(self)@.subrange(0, self.data@.len() as int));
        }
    }

    /// Drops every element, last first. The capacity stays.
    pub fn wipe(&mut self)
        requires
            old(self).wf(),
        ensures
            final(self).wf(),
            final(self)@ == Seq::<T>::empty(),
            final(self).spec_cap() == old(self).spec_cap(),
    {
        self.truncate(0);
        assert(self@ =~= Seq::<T>::empty());
    }
}

/// No element of `s` is above a later one.
pub open spec fn sorted<T: PartialOrd>(s: Seq<T>) -> bool {
    forall|i: int, j: int| 0 <= i < j < s.len() ==> le(#[trigger] s[i], #[trigger] s[j])
}

/// `b` holds the elements of `a` in stable sorted order, and `p` says where
/// each came from: position `i` of `b` holds the element that `a` had at
/// position `p[i]`, no element of `b` is above a later one, and of two
/// elements of `b` that are not ordered either way, the one that came first
/// in `a` comes first in `b`.
pub open spec fn stably_sorts<T: PartialOrd>(p: Seq<int>, a: Seq<T>, b: Seq<T>) -> bool {
    &&& p.len() == a.len()
    &&& b.len() == a.len()
    &&& forall|i: int| 0 <= i < b.len() ==> 0 <= #[trigger] p[i] < a.len() && b[i] == a[p[i]]
    &&& forall|i: int, j: int|
        #![trigger p[i], p[j]]
        0 <= i < j < b.len() ==> before(b[i], p[i], b[j], p[j])
}

/// An element `x` that came from position `xi` belongs before an element `y`
/// that came from position `yi`: `x` is not above `y`, and where `y` is not
/// above `x` either, `x` came first.
pub open spec fn before<T: PartialOrd>(x: T, xi: int, y: T, yi: int) -> bool {
    le(x, y) && (le(y, x) ==> xi < yi)
}

/// The slots `lo..hi` of `w` hold elements of `a`: slot `i` the one from
/// position `idx[i]`, which lies in `from..to`.
spec fn holds_in<T>(
    w: Seq<Option<T>>,
    idx: Seq<int>,
    a: Seq<T>,
    lo: int,
    hi: int,
    from: int,
    to: int,
) -> bool {
    forall|i: int|
        lo <= i < hi ==> (#[trigger] w[i]) == Some(a[idx[i]]) && from <= idx[i] < to && 0 <= idx[i]
            < a.len()
}

/// The slots `lo..hi` of `w` hold elements of `a`: slot `i` the one from
/// position `idx[i]`, which lies in `lo..hi` too.
spec fn holds<T>(w: Seq<Option<T>>, idx: Seq<int>, a: Seq<T>, lo: int, hi: int) -> bool {
    holds_in(w, idx, a, lo, hi, lo, hi)
}

/// Outside the slots `lo..hi` nothing has changed from `w0` and `i0` to `w1`
/// and `i1`.
spec fn same_outside<T>(
    w1: Seq<Option<T>>,
    i1: Seq<int>,
    w0: Seq<Option<T>>,
    i0: Seq<int>,
    lo: int,
    hi: int,
) -> bool {
    forall|t: int|
        0 <= t < w0.len() && !(lo <= t < hi) ==> (#[trigger] w1[t]) == w0[t] && i1[t] == i0[t]
}

/// The slots `lo..hi` of `w` are empty.
spec fn vacant<T>(w: Seq<Option<T>>, lo: int, hi: int) -> bool {
    forall|i: int| lo <= i < hi ==> (#[trigger] w[i]).is_none()
}

/// The slots `lo..hi` of `w` are in stable sorted order.
spec fn run<T: PartialOrd>(w: Seq<Option<T>>, idx: Seq<int>, lo: int, hi: int) -> bool {
    forall|i: int, j: int|
        #![trigger w[i], w[j]]
        lo <= i < j < hi ==> before(w[i].unwrap(), idx[i], w[j].unwrap(), idx[j])
}

/// Every slot of `lo..hi` in `w` belongs before every slot of `from..to` in `v`.
spec fn all_before<T: PartialOrd>(
    w: Seq<Option<T>>,
    widx: Seq<int>,
    lo: int,
    hi: int,
    v: Seq<Option<T>>,
    vidx: Seq<int>,
    from: int,
    to: int,
) -> bool {
    forall|t: int, s: int|
        #![trigger w[t], v[s]]
        lo <= t < hi && from <= s < to ==> before(w[t].unwrap(), widx[t], v[s].unwrap(), vidx[s])
}

/// An element taken from the left run because it is not above the head of
/// the right run belongs before everything that the head belongs before.
proof fn lemma_take_left<T: PartialOrd>(x: T, xi: int, y: T, yi: int, z: T, zi: int)
    requires
        total_preorder::<T>(),
        le(x, y),
        y == z || before(y, yi, z, zi),
        xi < zi,
    ensures
        before(x, xi, z, zi),
{
    lemma_le_chain(x, y, z);
    lemma_le_chain(y, y, y);
}

/// An element taken from the right run because it is strictly below the head
/// of the left run belongs before everything that the head belongs before.
proof fn lemma_take_right<T: PartialOrd>(y: T, yi: int, x: T, xi: int, z: T, zi: int)
    requires
        total_preorder::<T>(),
        !le(x, y),
        x == z || before(x, xi, z, zi),
    ensures
        before(y, yi, z, zi),
{
    lemma_le_chain(x, z, y);
    lemma_le_chain(z, y, x);
    lemma_le_chain(x, x, x);
    lemma_le_chain(y, x, z);
}

/// Moves the element of slot `from` in `src` to slot `to` in `dst`.
fn relocate<T>(src: &mut Vec<Option<T>>, from: usize, dst: &mut Vec<Option<T>>, to: usize)
    requires
        from < old(src)@.len(),
        to < old(dst)@.len(),
    ensures
        final(src)@ == old(src)@.update(from as int, None),
        final(dst)@ == old(dst)@.update(to as int, old(src)@[from as int]),
        old(dst)@[to as int].is_none() ==> held(final(src)@, final(dst)@) == held(
            old(src)@,
            old(dst)@,
        ),
{
    proof {
        broadcast use vstd::multiset::group_multiset_axioms;

        to_multiset_update(src@, from as int, None);
        to_multiset_update(dst@, to as int, src@[from as int]);
        if dst@[to as int].is_none() {
            assert(src@.contains(src@[from as int]));
            assert(dst@.contains(dst@[to as int]));
            vstd::seq_lib::to_multiset_contains(src@, src@[from as int]);
            vstd::seq_lib::to_multiset_contains(dst@, None);
            assert(held(src@.update(from as int, None), dst@.update(to as int, src@[from as int]))
                =~= held(src@, dst@));
        }
    }
    let item = src[from].take();
    dst[to] = item;
}

/// What two buffers of slots hold between them, empty slots and all.
spec fn held<T>(a: Seq<Option<T>>, b: Seq<Option<T>>) -> Multiset<Option<T>> {
    a.to_multiset().add(b.to_multiset())
}

/// Filled slots hold, as a multiset, what the elements in them are.
proof fn lemma_filled_multiset<T>(s: Seq<T>, x: T)
    ensures
        s.map_values(|e: T| Some(e)).to_multiset().count(Some(x)) == s.to_multiset().count(x),
    decreases s.len(),
{
    broadcast use {
        vstd::multiset::group_multiset_axioms,
        vstd::multiset::lemma_multiset_empty_len,
        vstd::seq_lib::to_multiset_len,
    };

    let f = |e: T| Some(e);
    if s.len() == 0 {
        assert(s.to_multiset().len() == 0);
        assert(s.map_values(f).to_multiset().len() == 0);
    } else {
        let d = s.drop_last();
        lemma_filled_multiset(d, x);
        assert(s =~= d.push(s.last()));
        assert(s.map_values(f) =~= d.map_values(f).push(Some(s.last())));
        to_multiset_build(d, s.last());
        to_multiset_build(d.map_values(f), Some(s.last()));
    }
}

/// Merges the neighbouring runs `left..=mid` and `mid+1..=right` of `work`
/// into one run, through the same slots of `temp`. Of two elements that are
/// not ordered either way, the one from the left run goes first.
fn merge<T: PartialOrd>(
    work: &mut Vec<Option<T>>,
    temp: &mut Vec<Option<T>>,
    left: usize,
    mid: usize,
    right: usize,
    Ghost(a): Ghost<Seq<T>>,
    Ghost(idx): Ghost<Seq<int>>,
) -> (out: Ghost<Seq<int>>)
    requires
        total_preorder::<T>(),
        left <= mid < right < old(work)@.len(),
        old(work)@.len() == old(temp)@.len(),
        idx.len() == old(work)@.len(),
        holds(old(work)@, idx, a, left as int, mid + 1),
        holds(old(work)@, idx, a, mid + 1, right + 1),
        run(old(work)@, idx, left as int, mid + 1),
        run(old(work)@, idx, mid + 1, right + 1),
        vacant(old(temp)@, 0, old(temp)@.len() as int),
    ensures
        final(work)@.len() == old(work)@.len(),
        final(temp)@.len() == old(temp)@.len(),
        out@.len() == idx.len(),
        same_outside(final(work)@, out@, old(work)@, idx, left as int, right + 1),
        holds(final(work)@, out@, a, left as int, right + 1),
        run(final(work)@, out@, left as int, right + 1),
        vacant(final(temp)@, 0, final(temp)@.len() as int),
        held(final(work)@, final(temp)@) == held(old(work)@, old(temp)@),
{
    let ghost n = work@.len() as int;
    let ghost src = work@;
    assert(work.len() == n);
    let ghost mut got: Seq<int> = idx;
    let mut i: usize = left;
    let mut j: usize = mid + 1;
    let mut k: usize = left;
    while i <= mid || j <= right
        invariant
            total_preorder::<T>(),
            left <= mid < right < n <= usize::MAX,
            work@.len() == n,
            temp@.len() == n,
            got.len() == n,
            idx.len() == n,
            src.len() == n,
            left <= i <= mid + 1,
            mid + 1 <= j <= right + 1,
            k - left == (i - left) + (j - (mid + 1)),
            holds(src, idx, a, left as int, mid + 1),
            holds(src, idx, a, mid + 1, right + 1),
            run(src, idx, left as int, mid + 1),
            run(src, idx, mid + 1, right + 1),
            forall|t: int| 0 <= t < n && !(left <= t <= right) ==> work@[t] == src[t],
            forall|t: int| 0 <= t < n && !(left <= t < k) ==> got[t] == idx[t],
            forall|t: int| i <= t <= mid || j <= t <= right ==> work@[t] == src[t],
            vacant(work@, left as int, i as int),
            vacant(work@, mid + 1, j as int),
            vacant(temp@, 0, left as int),
            vacant(temp@, k as int, n),
            holds_in(temp@, got, a, left as int, k as int, left as int, right + 1),
            run(temp@, got, left as int, k as int),
            all_before(temp@, got, left as int, k as int, src, idx, i as int, mid + 1),
            all_before(temp@, got, left as int, k as int, src, idx, j as int, right + 1),
            held(work@, temp@) == held(old(work)@, old(temp)@),
        decreases (mid + 1 - i) + (right + 1 - j),
    {
        let from_left: bool = if i > mid {
            false
        } else if j > right {
            true
        } else {
            is_le(work[i].as_ref().unwrap(), work[j].as_ref().unwrap())
        };
        let ghost prev_temp = temp@;
        let ghost prev_got = got;
        if from_left {
            proof {
                let x = src[i as int].unwrap();
                let xi = idx[i as int];
                assert forall|s: int| i < s <= mid implies before(
                    x,
                    xi,
                    (#[trigger] src[s]).unwrap(),
                    idx[s],
                ) by {
                    assert(before(src[i as int].unwrap(), idx[i as int], src[s].unwrap(), idx[s]));
                }
                assert forall|s: int| j <= s <= right implies before(
                    x,
                    xi,
                    (#[trigger] src[s]).unwrap(),
                    idx[s],
                ) by {
                    let y = src[j as int].unwrap();
                    if s > j {
                        assert(before(
                            src[j as int].unwrap(),
                            idx[j as int],
                            src[s].unwrap(),
                            idx[s],
                        ));
                    }
                    lemma_take_left(x, xi, y, idx[j as int], src[s].unwrap(), idx[s]);
                }
                got = got.update(k as int, xi);
            }
            relocate(work, i, temp, k);
            i = i + 1;
        } else {
            proof {
                let y = src[j as int].unwrap();
                let yi = idx[j as int];
                assert forall|s: int| j < s <= right implies before(
                    y,
                    yi,
                    (#[trigger] src[s]).unwrap(),
                    idx[s],
                ) by {
                    assert(before(src[j as int].unwrap(), idx[j as int], src[s].unwrap(), idx[s]));
                }
                assert forall|s: int| i <= s <= mid implies before(
                    y,
                    yi,
                    (#[trigger] src[s]).unwrap(),
                    idx[s],
                ) by {
                    let x = src[i as int].unwrap();
                    if s > i {
                        assert(before(
                            src[i as int].unwrap(),
                            idx[i as int],
                            src[s].unwrap(),
                            idx[s],
                        ));
                    }
                    lemma_take_right(y, yi, x, idx[i as int], src[s].unwrap(), idx[s]);
                }
                got = got.update(k as int, yi);
            }
            relocate(work, j, temp, k);
            j = j + 1;
        }
        proof {
            assert forall|t: int, u: int| left <= t < u < k + 1 implies before(
                (#[trigger] temp@[t]).unwrap(),
                got[t],
                (#[trigger] temp@[u]).unwrap(),
                got[u],
            ) by {
                if u < k {
                    assert(before(
                        prev_temp[t].unwrap(),
                        prev_got[t],
                        prev_temp[u].unwrap(),
                        prev_got[u],
                    ));
                } else {
                    if from_left {
                        assert(before(
                            prev_temp[t].unwrap(),
                            prev_got[t],
                            src[i - 1].unwrap(),
                            idx[i - 1],
                        ));
                    } else {
                        assert(before(
                            prev_temp[t].unwrap(),
                            prev_got[t],
                            src[j - 1].unwrap(),
                            idx[j - 1],
                        ));
                    }
                }
            }
            assert forall|t: int, u: int|
                left <= t < k + 1 && i <= u < mid + 1 implies before(
                (#[trigger] temp@[t]).unwrap(),
                got[t],
                (#[trigger] src[u]).unwrap(),
                idx[u],
            ) by {
                if t < k {
                    assert(before(prev_temp[t].unwrap(), prev_got[t], src[u].unwrap(), idx[u]));
                }
            }
            assert forall|t: int, u: int|
                left <= t < k + 1 && j <= u < right + 1 implies before(
                (#[trigger] temp@[t]).unwrap(),
                got[t],
                (#[trigger] src[u]).unwrap(),
                idx[u],
            ) by {
                if t < k {
                    assert(before(prev_temp[t].unwrap(), prev_got[t], src[u].unwrap(), idx[u]));
                }
            }
        }
        k = k + 1;
    }
    // the merged run goes back to where the two runs were
    assert(held(temp@, work@) =~= held(work@, temp@)) by {
        broadcast use vstd::multiset::group_multiset_axioms;

    }
    assert(held(old(temp)@, old(work)@) =~= held(old(work)@, old(temp)@)) by {
        broadcast use vstd::multiset::group_multiset_axioms;

    }
    let mut t: usize = left;
    while t <= right
        invariant
            left <= t <= right + 1,
            right < n <= usize::MAX,
            k == right + 1,
            work@.len() == n,
            temp@.len() == n,
            got.len() == n,
            forall|u: int| 0 <= u < n && !(left <= u <= right) ==> work@[u] == src[u],
            vacant(work@, t as int, right + 1),
            vacant(temp@, 0, t as int),
            vacant(temp@, right + 1, n),
            src.len() == n,
            idx.len() == n,
            forall|u: int| 0 <= u < n && !(left <= u <= right) ==> got[u] == idx[u],
            holds_in(temp@, got, a, t as int, right + 1, left as int, right + 1),
            holds_in(work@, got, a, left as int, t as int, left as int, right + 1),
            run(temp@, got, t as int, right + 1),
            run(work@, got, left as int, t as int),
            all_before(work@, got, left as int, t as int, temp@, got, t as int, right + 1),
            held(temp@, work@) == held(old(temp)@, old(work)@),
        decreases right + 1 - t,
    {
        let ghost prev_work = work@;
        let ghost prev_temp = temp@;
        relocate(temp, t, work, t);
        proof {
            assert forall|u: int, v: int| left <= u < v < t + 1 implies before(
                (#[trigger] work@[u]).unwrap(),
                got[u],
                (#[trigger] work@[v]).unwrap(),
                got[v],
            ) by {
                if v < t {
                    assert(before(
                        prev_work[u].unwrap(),
                        got[u],
                        prev_work[v].unwrap(),
                        got[v],
                    ));
                } else {
                    assert(before(
                        prev_work[u].unwrap(),
                        got[u],
                        prev_temp[v].unwrap(),
                        got[v],
                    ));
                }
            }
            assert forall|u: int, v: int|
                left <= u < t + 1 && t + 1 <= v < right + 1 implies before(
                (#[trigger] work@[u]).unwrap(),
                got[u],
                (#[trigger] temp@[v]).unwrap(),
                got[v],
            ) by {
                if u < t {
                    assert(before(
                        prev_work[u].unwrap(),
                        got[u],
                        prev_temp[v].unwrap(),
                        got[v],
                    ));
                } else {
                    assert(before(
                        prev_temp[u].unwrap(),
                        got[u],
                        prev_temp[v].unwrap(),
                        got[v],
                    ));
                }
            }
            assert forall|u: int, v: int| t + 1 <= u < v < right + 1 implies before(
                (#[trigger] temp@[u]).unwrap(),
                got[u],
                (#[trigger] temp@[v]).unwrap(),
                got[v],
            ) by {
                assert(before(prev_temp[u].unwrap(), got[u], prev_temp[v].unwrap(), got[v]));
            }
        }
        t = t + 1;
    }
    Ghost(got)
}

/// The slots `lo..hi` of `w` still hold the elements of `a` at their own
/// positions.
spec fn untouched<T>(w: Seq<Option<T>>, idx: Seq<int>, a: Seq<T>, lo: int, hi: int) -> bool {
    forall|i: int| lo <= i < hi ==> (#[trigger] w[i]) == Some(a[i]) && idx[i] == i && i < a.len()
}

/// Sorts the slots `left..=right` of `work` into one run: splits them at the
/// midpoint, sorts each half, and merges the two.
fn merge_sort<T: PartialOrd>(
    work: &mut Vec<Option<T>>,
    temp: &mut Vec<Option<T>>,
    left: usize,
    right: usize,
    Ghost(a): Ghost<Seq<T>>,
    Ghost(idx): Ghost<Seq<int>>,
) -> (out: Ghost<Seq<int>>)
    requires
        total_preorder::<T>(),
        left <= right < old(work)@.len(),
        old(work)@.len() == old(temp)@.len(),
        idx.len() == old(work)@.len(),
        untouched(old(work)@, idx, a, left as int, right + 1),
        vacant(old(temp)@, 0, old(temp)@.len() as int),
    ensures
        final(work)@.len() == old(work)@.len(),
        final(temp)@.len() == old(temp)@.len(),
        out@.len() == idx.len(),
        same_outside(final(work)@, out@, old(work)@, idx, left as int, right + 1),
        holds(final(work)@, out@, a, left as int, right + 1),
        run(final(work)@, out@, left as int, right + 1),
        vacant(final(temp)@, 0, final(temp)@.len() as int),
        held(final(work)@, final(temp)@) == held(old(work)@, old(temp)@),
    decreases right - left,
{
    if left >= right {
        return Ghost(idx);
    }
    let mid: usize = left + (right - left) / 2;
    let ghost start = work@;
    let Ghost(lower) = merge_sort(work, temp, left, mid, Ghost(a), Ghost(idx));
    let ghost half = work@;
    proof {
        assert forall|i: int| mid + 1 <= i < right + 1 implies (#[trigger] half[i]) == Some(a[i])
            && lower[i] == i && i < a.len() by {
            assert(start[i] == Some(a[i]));
        }
    }
    let Ghost(both) = merge_sort(work, temp, mid + 1, right, Ghost(a), Ghost(lower));
    proof {
        assert forall|i: int, j: int| left <= i < j < mid + 1 implies before(
            (#[trigger] work@[i]).unwrap(),
            both[i],
            (#[trigger] work@[j]).unwrap(),
            both[j],
        ) by {
            assert(before(half[i].unwrap(), lower[i], half[j].unwrap(), lower[j]));
            assert(work@[i] == half[i] && both[i] == lower[i]);
            assert(work@[j] == half[j] && both[j] == lower[j]);
        }
        assert forall|i: int| left <= i < mid + 1 implies (#[trigger] work@[i]) == Some(
            a[both[i]],
        ) && left <= both[i] < mid + 1 && 0 <= both[i] < a.len() by {
            assert(half[i] == Some(a[lower[i]]));
            assert(work@[i] == half[i] && both[i] == lower[i]);
        }
    }
    let ghost halves = work@;
    let Ghost(out) = merge(work, temp, left, mid, right, Ghost(a), Ghost(both));
    proof {
        assert forall|t: int| 0 <= t < start.len() && !(left <= t < right + 1) implies (
        #[trigger] work@[t]) == start[t] && out[t] == idx[t] by {
            assert(work@[t] == halves[t] && out[t] == both[t]);
            assert(halves[t] == half[t] && both[t] == lower[t]);
            assert(half[t] == start[t] && lower[t] == idx[t]);
        }
        assert(same_outside(work@, out, start, idx, left as int, right + 1));
    }
    Ghost(out)
}

impl<T: PartialOrd> CroVec<T> {
    /// Sorts the elements with a stable top-down merge sort: afterwards no
    /// element is above a later one, the elements are those from before,
    /// each as often as before, and elements that are not ordered either
    /// way keep the order they had.
    ///
    /// For the time of the sort the elements live in a buffer of slots, and
    /// one more buffer of that size takes each merged run before it goes
    /// back to its place.
    pub fn sort(&mut self)
        requires
            old(self).wf(),
            total_preorder::<T>(),
        ensures
            final(self).wf(),
            final(self).spec_cap() == old(self).spec_cap(),
            sorted(final(self)@),
            final(self)@.to_multiset() == old(self)@.to_multiset(),
            exists|p: Seq<int>| stably_sorts(p, old(self)@, final(self)@),
    {
        let n: usize = self.data.len();
        let ghost a = self@;
        if n <= 1 {
            proof {
                let p = Seq::new(n as nat, |i: int| i);
                assert(stably_sorts(p, a, self@));
            }
            return ;
        }
        // the elements move into slots that can be emptied one by one
        let mut work: Vec<Option<T>> = Vec::with_capacity(n);
        let mut temp: Vec<Option<T>> = Vec::with_capacity(n);
        let mut c: usize = 0;
        while c < n
            invariant
                c <= n,
                work@.len() == c,
                temp@.len() == c,
                vacant(work@, 0, c as int),
                vacant(temp@, 0, c as int),
            decreases n - c,
        {
            work.push(None);
            temp.push(None);
            c = c + 1;
        }
        let mut r: usize = n;
        while r > 0
            invariant
                r <= n,
                n == a.len(),
                work@.len() == n,
                self.data@ == a.subrange(0, r as int),
                self.cap == old(self).cap,
                forall|i: int| r <= i < n ==> (#[trigger] work@[i]) == Some(a[i]),
            decreases r,
        {
            r = r - 1;
            let item = self.data.pop();
            work[r] = item;
            assert(self.data@ =~= a.subrange(0, r as int));
        }
        let ghost ident = Seq::new(n as nat, |i: int| i);
        let ghost unordered = work@;
        let ghost blank = temp@;
        let Ghost(p) = merge_sort(&mut work, &mut temp, 0, n - 1, Ghost(a), Ghost(ident));
        let ghost ordered = work@;
        proof {
            assert(temp@ =~= blank);
            assert(ordered.to_multiset() =~= unordered.to_multiset()) by {
                assert forall|v: Option<T>|
                    ordered.to_multiset().count(v) == unordered.to_multiset().count(v) by {
                    assert(held(ordered, blank).count(v) == held(unordered, blank).count(v));
                }
            }
        }
        // and back, in their new order
        let mut w: usize = 0;
        while w < n
            invariant
                w <= n,
                n == a.len(),
                work@.len() == n,
                ordered.len() == n,
                self.cap == old(self).cap,
                self.data@.len() == w,
                holds(ordered, p, a, 0, n as int),
                forall|i: int| w <= i < n ==> (#[trigger] work@[i]) == ordered[i],
                forall|i: int| 0 <= i < w ==> (#[trigger] self.data@[i]) == ordered[i].unwrap(),
            decreases n - w,
        {
            assert(ordered[w as int] == Some(a[p[w as int]]));
            let item = work[w].take();
            self.data.push(item.unwrap());
            w = w + 1;
        }
        proof {
            let b = self@;
            assert forall|i: int| 0 <= i < n implies 0 <= #[trigger] p[i] < a.len() && b[i]
                == a[p[i]] by {
                assert(ordered[i] == Some(a[p[i]]));
            }
            assert forall|i: int, j: int| 0 <= i < j < n implies before(
                b[i],
                #[trigger] p[i],
                b[j],
                #[trigger] p[j],
            ) by {
                assert(before(ordered[i].unwrap(), p[i], ordered[j].unwrap(), p[j]));
            }
            assert(stably_sorts(p, a, b));
            assert forall|i: int, j: int| 0 <= i < j < n implies le(
                #[trigger] b[i],
                #[trigger] b[j],
            ) by {
                assert(before(b[i], p[i], b[j], p[j]));
            }
            assert(unordered =~= a.map_values(|e: T| Some(e)));
            assert(ordered =~= b.map_values(|e: T| Some(e)));
            assert forall|x: T| b.to_multiset().count(x) == a.to_multiset().count(x) by {
                lemma_filled_multiset(a, x);
                lemma_filled_multiset(b, x);
            }
            assert(b.to_multiset() =~= a.to_multiset());
        }
    }
}

/// The elements of `s` whose flag in `keep` is set, in their order.
pub open spec fn kept<T>(s: Seq<T>, keep: Seq<bool>) -> Seq<T>
    decreases s.len(),
{
    if s.len() == 0 || keep.len() != s.len() {
        Seq::empty()
    } else if keep.last() {
        kept(s.drop_last(), keep.drop_last()).push(s.last())
    } else {
        kept(s.drop_last(), keep.drop_last())
    }
}

/// What is kept is no longer than what there was.
pub proof fn lemma_kept_len<T>(s: Seq<T>, keep: Seq<bool>)
    ensures
        kept(s, keep).len() <= s.len(),
    decreases s.len(),
{
    if s.len() > 0 && keep.len() == s.len() {
        lemma_kept_len(s.drop_last(), keep.drop_last());
    }
}

impl<T> CroVec<T> {
    /// Keeps the elements for which `pred` answers `true`, in their order,
    /// and drops the others. `pred` is asked once for each element, from the
    /// first to the last. The capacity stays.
    pub fn retain<F: Fn(&T) -> bool>(&mut self, pred: F)
        requires
            old(self).wf(),
            forall|i: int| 0 <= i < old(self)@.len() ==> call_requires(pred, (&old(self)@[i],)),
        ensures
            final(self).wf(),
            final(self).spec_cap() == old(self).spec_cap(),
            exists|keep: Seq<bool>|
                {
                    &&& keep.len() == old(self)@.len()
                    &&& forall|i: int|
                        0 <= i < keep.len() ==> call_ensures(
                            pred,
                            (&old(self)@[i],),
                            #[trigger] keep[i],
                        )
                    &&& final(self)@ == kept(old(self)@, keep)
                },
    {
        let n: usize = self.data.len();
        let ghost a = self@;
        let ghost mut keep: Seq<bool> = Seq::empty();
        let mut w: usize = 0;
        let mut i: usize = 0;
        while i < n
            invariant
                w <= i <= n,
                n == a.len(),
                self.wf(),
                self@.len() == n,
                self.spec_cap() == old(self).spec_cap(),
                keep.len() == i,
                forall|t: int| 0 <= t < i ==> call_ensures(pred, (&a[t],), #[trigger] keep[t]),
                self@.subrange(0, w as int) == kept(a.subrange(0, i as int), keep),
                self@.subrange(i as int, n as int) == a.subrange(i as int, n as int),
                forall|t: int| 0 <= t < n ==> call_requires(pred, (&a[t],)),
            decreases n - i,
        {
            assert(self@[i as int] == a.subrange(i as int, n as int)[0]);
            let keep_it: bool = pred(self.get(i));
            let ghost before_swap = self@;
            if keep_it {
                if w != i {
                    self.swap(w, i);
                }
                w = w + 1;
            }
            proof {
                let grown = a.subrange(0, i + 1);
                assert(grown.drop_last() =~= a.subrange(0, i as int));
                assert(keep.push(keep_it).drop_last() =~= keep);
                if keep_it {
                    assert(self@.subrange(0, w as int) =~= before_swap.subrange(0, w - 1).push(
                        a[i as int],
                    ));
                } else {
                    assert(self@.subrange(0, w as int) =~= before_swap.subrange(0, w as int));
                }
                assert forall|t: int| i + 1 <= t < n implies #[trigger] self@[t] == a[t] by {
                    assert(before_swap.subrange(i as int, n as int)[t - i] == a.subrange(
                        i as int,
                        n as int,
                    )[t - i]);
                }
                assert(self@.subrange(i + 1, n as int) =~= a.subrange(i + 1, n as int));
                keep = keep.push(keep_it);
            }
            i = i + 1;
        }
        proof {
            assert(a.subrange(0, n as int) =~= a);
        }
        let ghost full = self@;
        self.truncate(w);
        proof {
            assert(self@ =~= full.subrange(0, w as int));
            assert(self@ == kept(a, keep));
        }
    }

    /// Splits the array at `at`: the elements from there on leave, in their
    /// order, as a new array that is exactly as large as they need.
    pub fn split_off(&mut self, at: usize) -> (tail: CroVec<T>)
        requires
            old(self).wf(),
            at <= old(self)@.len(),
        ensures
            final(self).wf(),
            final(self).spec_cap() == old(self).spec_cap(),
            final(self)@ == old(self)@.subrange(0, at as int),
            tail.wf(),
            tail@ == old(self)@.subrange(at as int, old(self)@.len() as int),
            tail.spec_cap() == tail@.len(),
    {
        let data = self.data.split_off(at);
        let cap: usize = data.len();
        CroVec { data, cap }
    }

    /// Moves every element of `other` to the end of this array, in their
    /// order. `other` is left empty, with the capacity it had. This array
    /// grows as `reserve` would for that many elements.
    pub fn append(&mut self, other: &mut CroVec<T>)
        requires
            old(self).wf(),
            old(other).wf(),
            old(self)@.len() + old(other)@.len() <= usize::MAX,
        ensures
            final(self).wf(),
            final(other).wf(),
            final(self)@ == old(self)@ + old(other)@,
            final(other)@ == Seq::<T>::empty(),
            final(other).spec_cap() == old(other).spec_cap(),
            final(self).spec_cap() == reserved(
                old(self).spec_cap(),
                (old(self)@.len() + old(other)@.len()) as usize,
            ),
            final(self).spec_cap() >= old(self).spec_cap(),
    {
        let more: usize = other.data.len();
        self.reserve(more);
        self.data.append(&mut other.data);
    }

    /// A cursor over the elements, from the first to the last.
    pub fn iter(&self) -> (it: CroVecIter<'_, T>)
        ensures
            it.remaining() == self@,
    {
        let it = CroVecIter { vec: self, index: 0 };
        assert(it.remaining() =~= self@);
        it
    }
}

/// A cursor over the elements of a `CroVec`.
pub struct CroVecIter<'a, T> {
    vec: &'a CroVec<T>,
    index: usize,
}

impl<'a, T> CroVecIter<'a, T> {
    /// The elements that the cursor has not handed out yet.
    pub closed spec fn remaining(&self) -> Seq<T> {
        if self.index <= self.vec@.len() {
            self.vec@.subrange(self.index as int, self.vec@.len() as int)
        } else {
            Seq::empty()
        }
    }

    /// Hands out the next element, or `None` when none is left.
    pub fn next(&mut self) -> (r: Option<&'a T>)
        ensures
            old(self).remaining().len() == 0 ==> r.is_none(),
            old(self).remaining().len() == 0 ==> final(self).remaining() == old(self).remaining(),
            old(self).remaining().len() > 0 ==> r == Some(&old(self).remaining()[0]),
            old(self).remaining().len() > 0 ==> final(self).remaining() == old(self).remaining().drop_first(),
    {
        if self.index < self.vec.size() {
            let item = self.vec.get(self.index);
            self.index = self.index + 1;
            assert(self.remaining() =~= old(self).remaining().drop_first());
            Some(item)
        } else {
            None
        }
    }

    /// The number of elements left, as the lower and the upper bound.
    pub fn size_hint(&self) -> (r: (usize, Option<usize>))
        ensures
            r.0 == self.remaining().len(),
            r.1 == Some(r.0),
    {
        let left: usize = if self.index <= self.vec.size() {
            self.vec.size() - self.index
        } else {
            0
        };
        (left, Some(left))
    }
}

/// An element of an array is a smaller value than the array, so that a
/// definition over a tree of arrays may recur into the elements.
pub broadcast proof fn lemma_element_is_smaller<T>(v: CroVec<T>, i: int)
    requires
        0 <= i < v@.len(),
    ensures
        #[trigger] (decreases_to!(v => v@[i])),
{
    assert(v.data@[i] == v.data[i]);
}

/// A cursor over the elements of a `CroVec` that gives mutable access to
/// one element at a time, from the first to the last.
///
/// The array is the cursor's for as long as the cursor lives. Its fields are
/// open, so that a caller can say of the array what the cursor has done to
/// it so far, and what it will have done in the end.
pub struct CroVecIterMut<'a, T> {
    /// The array that the cursor walks.
    pub vec: &'a mut CroVec<T>,
    /// The number of elements that the cursor has handed out.
    pub index: usize,
}

impl<'a, T> CroVecIterMut<'a, T> {
    /// Hands out the next element, or `None` when none is left. What is
    /// written through it becomes that element; nothing else changes.
    pub fn next(&mut self) -> (r: Option<&mut T>)
        ensures
            *final(final(self).vec) == *final(old(self).vec),
            final(self).vec.spec_cap() == old(self).vec.spec_cap(),
            match r {
                Some(item) => {
                    &&& old(self).index < old(self).vec@.len()
                    &&& *item == old(self).vec@[old(self).index as int]
                    &&& final(self).vec@ == old(self).vec@.update(
                        old(self).index as int,
                        *final(item),
                    )
                    &&& final(self).index == old(self).index + 1
                },
                None => {
                    &&& old(self).index >= old(self).vec@.len()
                    &&& final(self).vec@ == old(self).vec@
                    &&& final(self).index == old(self).index
                },
            },
    {
        if self.index < self.vec.size() {
            let at: usize = self.index;
            self.index = self.index + 1;
            Some(self.vec.get_mut(at))
        } else {
            None
        }
    }

    /// The number of elements left, as the lower and the upper bound.
    pub fn size_hint(&self) -> (r: (usize, Option<usize>))
        ensures
            r.0 == if self.index <= old(self.vec)@.len() {
                old(self.vec)@.len() - self.index
            } else {
                0
            },
            r.1 == Some(r.0),
    {
        let left: usize = if self.index <= self.vec.size() {
            self.vec.size() - self.index
        } else {
            0
        };
        (left, Some(left))
    }
}

impl<T> CroVec<T> {
    /// A cursor over the elements, from the first to the last, that gives
    /// mutable access to them.
    pub fn iter_mut(&mut self) -> (it: CroVecIterMut<'_, T>)
        ensures
            it.vec@ == old(self)@,
            it.vec.spec_cap() == old(self).spec_cap(),
            it.index == 0,
            *final(self) == *final(it.vec),
    {
        CroVecIterMut { vec: self, index: 0 }
    }
}

/// One step of a history of appends and removals at the end.
pub enum EndOp<T> {
    /// `push` of the value.
    Append(T),
    /// `pop`.
    RemoveLast,
}

/// The elements after one step, as `push` and `pop` leave them.
pub open spec fn after_op<T>(s: Seq<T>, op: EndOp<T>) -> Seq<T> {
    match op {
        EndOp::Append(v) => s.push(v),
        EndOp::RemoveLast => if s.len() == 0 {
            s
        } else {
            s.drop_last()
        },
    }
}

/// The elements after a history of steps.
pub open spec fn after_ops<T>(s: Seq<T>, ops: Seq<EndOp<T>>) -> Seq<T>
    decreases ops.len(),
{
    if ops.len() == 0 {
        s
    } else {
        after_op(after_ops(s, ops.drop_last()), ops.last())
    }
}

/// Appends minus removals over a history that starts with `n` elements,
/// where a removal from nothing counts for nothing.
pub open spec fn net_count<T>(n: nat, ops: Seq<EndOp<T>>) -> nat
    decreases ops.len(),
{
    if ops.len() == 0 {
        n
    } else {
        let sofar = net_count(n, ops.drop_last());
        match ops.last() {
            EndOp::Append(_) => sofar + 1,
            EndOp::RemoveLast => if sofar == 0 {
                0
            } else {
                (sofar - 1) as nat
            },
        }
    }
}

/// After any history of appends and removals at the end, the number of live
/// elements is the number of appends minus the number of removals, never
/// going below nothing.
pub proof fn lemma_count_after_ops<T>(s: Seq<T>, ops: Seq<EndOp<T>>)
    ensures
        after_ops(s, ops).len() == net_count(s.len(), ops),
    decreases ops.len(),
{
    if ops.len() > 0 {
        lemma_count_after_ops(s, ops.drop_last());
    }
}

/// Growing never lowers a capacity: a doubled capacity is above the old one,
/// and a reserved capacity is at least the old one and at least what was
/// needed.
pub proof fn lemma_capacity_grows(cap: usize, needed: usize)
    ensures
        doubled(cap) >= cap,
        cap < usize::MAX ==> doubled(cap) > cap,
        reserved(cap, needed) >= cap,
        reserved(cap, needed) >= needed,
    decreases (if needed > cap { needed - cap } else { 0 }),
{
    if cap < needed && cap != 0 {
        lemma_capacity_grows(doubled(cap), needed);
    }
}

/// In a stable sort the positions that the elements came from are all
/// different: no element is used twice.
pub proof fn lemma_stable_sort_uses_each_once<T: PartialOrd>(p: Seq<int>, a: Seq<T>, b: Seq<T>)
    requires
        total_preorder::<T>(),
        stably_sorts(p, a, b),
    ensures
        sorted(b),
        forall|i: int, j: int| 0 <= i < j < p.len() ==> p[i] != p[j],
{
    assert forall|i: int, j: int| 0 <= i < j < p.len() implies p[i] != p[j] by {
        assert(before(b[i], p[i], b[j], p[j]));
        if p[i] == p[j] {
            lemma_le_chain(b[i], b[i], b[i]);
        }
    }
    assert forall|i: int, j: int| 0 <= i < j < b.len() implies le(
        #[trigger] b[i],
        #[trigger] b[j],
    ) by {
        assert(before(b[i], p[i], b[j], p[j]));
    }
}

} // verus!
