//! Association sequences: key/value pairs in ascending key order, as the
//! B-tree lays them out, with lookup and insertion stated on the sequence.

use crate::order::{lemma_le_chain, lt, total_order};
use vstd::prelude::*;

verus! {

/// The keys of `s` ascend strictly.
pub open spec fn ascending<K: PartialOrd, V>(s: Seq<(K, V)>) -> bool {
    forall|i: int, j: int| 0 <= i < j < s.len() ==> lt((#[trigger] s[i]).0, (#[trigger] s[j]).0)
}

/// The value that `s` holds for `k`, if it holds one.
pub open spec fn find<K, V>(s: Seq<(K, V)>, k: K) -> Option<V>
    decreases s.len(),
{
    if s.len() == 0 {
        None
    } else if s.last().0 == k {
        Some(s.last().1)
    } else {
        find(s.drop_last(), k)
    }
}

/// The place of `k` in `s`: the number of pairs at the end of which no key
/// is below `k`, counted from the front. In an ascending sequence this is
/// the number of keys below `k`.
pub open spec fn rank<K: PartialOrd, V>(s: Seq<(K, V)>, k: K) -> int
    decreases s.len(),
{
    if s.len() == 0 {
        0
    } else if lt(s.last().0, k) {
        s.len() as int
    } else {
        rank(s.drop_last(), k)
    }
}

/// `r` parts `s` into the keys below `k`, before `r`, and the keys not below
/// `k`, from `r` on.
pub open spec fn is_rank<K: PartialOrd, V>(s: Seq<(K, V)>, k: K, r: int) -> bool {
    &&& 0 <= r <= s.len()
    &&& forall|j: int| 0 <= j < r ==> lt((#[trigger] s[j]).0, k)
    &&& forall|j: int| r <= j < s.len() ==> !lt((#[trigger] s[j]).0, k)
}

/// `s` with `v` stored for `k`: in place of the pair that `s` has for `k` at
/// the place of `k`, or else as a new pair at that place.
pub open spec fn put<K: PartialOrd, V>(s: Seq<(K, V)>, k: K, v: V) -> Seq<(K, V)> {
    let r = rank(s, k);
    if r < s.len() && s[r].0 == k {
        s.update(r, (k, v))
    } else {
        s.insert(r, (k, v))
    }
}

/// The map that `s` stands for.
pub open spec fn map_of<K, V>(s: Seq<(K, V)>) -> Map<K, V> {
    Map::new(|k: K| find(s, k).is_some(), |k: K| find(s, k).unwrap())
}

/// `parts` joined into one sequence, with `seps[i]` between `parts[i]` and
/// `parts[i + 1]`. There is one part more than there are separators.
pub open spec fn weave<E>(parts: Seq<Seq<E>>, seps: Seq<E>) -> Seq<E>
    decreases seps.len(),
{
    if seps.len() == 0 || parts.len() != seps.len() + 1 {
        if parts.len() > 0 {
            parts[0]
        } else {
            Seq::empty()
        }
    } else {
        weave(parts.drop_last(), seps.drop_last()).push(seps.last()) + parts.last()
    }
}

/// No pair of `s` has the key `k`.
pub open spec fn lacks<K, V>(s: Seq<(K, V)>, k: K) -> bool {
    forall|i: int| 0 <= i < s.len() ==> (#[trigger] s[i]).0 != k
}

/// A lookup finds exactly the keys that occur, and the value at a place
/// where the key occurs last.
pub proof fn lemma_find<K, V>(s: Seq<(K, V)>, k: K)
    ensures
        lacks(s, k) <==> find(s, k).is_none(),
        find(s, k).is_some() ==> exists|i: int|
            0 <= i < s.len() && #[trigger] s[i] == (k, find(s, k).unwrap()),
    decreases s.len(),
{
    if s.len() > 0 {
        lemma_find(s.drop_last(), k);
        if s.last().0 == k {
            assert(s[s.len() - 1] == (k, find(s, k).unwrap()));
        } else {
            if find(s.drop_last(), k).is_some() {
                let i = choose|i: int|
                    0 <= i < s.drop_last().len() && #[trigger] s.drop_last()[i] == (
                        k,
                        find(s, k).unwrap(),
                    );
                assert(s[i] == s.drop_last()[i]);
            }
            if lacks(s.drop_last(), k) {
                assert forall|i: int| 0 <= i < s.len() implies (#[trigger] s[i]).0 != k by {
                    if i < s.len() - 1 {
                        assert(s.drop_last()[i] == s[i]);
                    }
                }
            }
            if lacks(s, k) {
                assert forall|i: int| 0 <= i < s.drop_last().len() implies (
                #[trigger] s.drop_last()[i]).0 != k by {
                    assert(s.drop_last()[i] == s[i]);
                }
            }
        }
    }
}

/// In an ascending sequence a key occurs at one place at most, so a lookup
/// finds the value at the place where the key occurs.
pub proof fn lemma_find_at<K: PartialOrd, V>(s: Seq<(K, V)>, i: int)
    requires
        total_order::<K>(),
        ascending(s),
        0 <= i < s.len(),
    ensures
        find(s, s[i].0) == Some(s[i].1),
    decreases s.len(),
{
    if i < s.len() - 1 {
        assert(lt(s[i].0, s[s.len() - 1].0));
        assert(s.last().0 != s[i].0);
        assert(ascending(s.drop_last())) by {
            assert forall|a: int, b: int| 0 <= a < b < s.drop_last().len() implies lt(
                (#[trigger] s.drop_last()[a]).0,
                (#[trigger] s.drop_last()[b]).0,
            ) by {
                assert(lt(s[a].0, s[b].0));
            }
        }
        lemma_find_at(s.drop_last(), i);
    }
}

/// A lookup in two sequences laid end to end looks in the second first.
pub proof fn lemma_find_concat<K, V>(a: Seq<(K, V)>, b: Seq<(K, V)>, k: K)
    ensures
        find(a + b, k) == if find(b, k).is_some() {
            find(b, k)
        } else {
            find(a, k)
        },
    decreases b.len(),
{
    if b.len() == 0 {
        assert(a + b =~= a);
    } else {
        assert((a + b).drop_last() =~= a + b.drop_last());
        assert((a + b).last() == b.last());
        lemma_find_concat(a, b.drop_last(), k);
    }
}

/// A prefix of an ascending sequence ascends.
pub proof fn lemma_ascending_parts<K: PartialOrd, V>(s: Seq<(K, V)>, from: int, to: int)
    requires
        ascending(s),
        0 <= from <= to <= s.len(),
    ensures
        ascending(s.subrange(from, to)),
{
    let t = s.subrange(from, to);
    assert forall|a: int, b: int| 0 <= a < b < t.len() implies lt(
        (#[trigger] t[a]).0,
        (#[trigger] t[b]).0,
    ) by {
        assert(lt(s[from + a].0, s[from + b].0));
    }
}

/// In an ascending sequence the place of `k` parts the keys below `k` from
/// the others.
pub proof fn lemma_rank<K: PartialOrd, V>(s: Seq<(K, V)>, k: K)
    requires
        total_order::<K>(),
        ascending(s),
    ensures
        is_rank(s, k, rank(s, k)),
    decreases s.len(),
{
    if s.len() > 0 {
        let d = s.drop_last();
        if lt(s.last().0, k) {
            assert forall|j: int| 0 <= j < s.len() implies lt((#[trigger] s[j]).0, k) by {
                if j < s.len() - 1 {
                    assert(lt(s[j].0, s[s.len() - 1].0));
                    lemma_le_chain(s[j].0, s.last().0, k);
                }
            }
        } else {
            lemma_ascending_parts(s, 0, s.len() - 1);
            lemma_rank(d, k);
            let r = rank(d, k);
            assert forall|j: int| 0 <= j < r implies lt((#[trigger] s[j]).0, k) by {
                assert(d[j] == s[j]);
            }
            assert forall|j: int| r <= j < s.len() implies !lt((#[trigger] s[j]).0, k) by {
                if j < s.len() - 1 {
                    assert(d[j] == s[j]);
                }
            }
        }
    }
}

/// Only one place parts the keys below `k` from the others.
pub proof fn lemma_rank_unique<K: PartialOrd, V>(s: Seq<(K, V)>, k: K, r: int)
    requires
        is_rank(s, k, r),
    ensures
        r == rank(s, k),
    decreases s.len(),
{
    if s.len() > 0 {
        let d = s.drop_last();
        if lt(s.last().0, k) {
            if r < s.len() {
                assert(!lt(s[s.len() - 1].0, k));
            }
        } else {
            if r == s.len() {
                assert(lt(s[s.len() - 1].0, k));
            }
            assert forall|j: int| 0 <= j < r implies lt((#[trigger] d[j]).0, k) by {
                assert(d[j] == s[j]);
            }
            assert forall|j: int| r <= j < d.len() implies !lt((#[trigger] d[j]).0, k) by {
                assert(d[j] == s[j]);
            }
            lemma_rank_unique(d, k, r);
        }
    }
}

/// Storing a value in an ascending sequence leaves it ascending, and makes
/// it one pair longer unless it had the key.
pub proof fn lemma_put_ascending<K: PartialOrd, V>(s: Seq<(K, V)>, k: K, v: V)
    requires
        total_order::<K>(),
        ascending(s),
    ensures
        ascending(put(s, k, v)),
        put(s, k, v).len() == if find(s, k).is_some() {
            s.len()
        } else {
            s.len() + 1
        },
{
    lemma_rank(s, k);
    lemma_find(s, k);
    let r = rank(s, k);
    let t = put(s, k, v);
    if r < s.len() && s[r].0 == k {
        assert(!lacks(s, k));
        assert forall|a: int, b: int| 0 <= a < b < t.len() implies lt(
            (#[trigger] t[a]).0,
            (#[trigger] t[b]).0,
        ) by {
            assert(lt(s[a].0, s[b].0));
        }
    } else {
        assert forall|j: int| 0 <= j < s.len() implies (#[trigger] s[j]).0 != k by {
            if j < r {
                assert(lt(s[j].0, k));
            } else if j > r {
                assert(lt(s[r].0, s[j].0));
                assert(!lt(s[r].0, k));
                lemma_le_chain(k, s[r].0, s[j].0);
            }
        }
        assert forall|a: int, b: int| 0 <= a < b < t.len() implies lt(
            (#[trigger] t[a]).0,
            (#[trigger] t[b]).0,
        ) by {
            if b < r {
                assert(lt(s[a].0, s[b].0));
            } else if b == r {
                assert(lt(s[a].0, k));
            } else if a < r {
                assert(lt(s[a].0, s[b - 1].0));
            } else if a == r {
                assert(!lt(s[b - 1].0, k));
                assert(s[b - 1].0 != k);
            } else {
                assert(lt(s[a - 1].0, s[b - 1].0));
            }
        }
    }
}

/// Storing a value for `k` in an ascending sequence changes the lookup of
/// `k` to that value, and no other lookup.
pub proof fn lemma_find_put<K: PartialOrd, V>(s: Seq<(K, V)>, k: K, v: V, other: K)
    requires
        total_order::<K>(),
        ascending(s),
    ensures
        find(put(s, k, v), other) == if other == k {
            Some(v)
        } else {
            find(s, other)
        },
{
    lemma_put_ascending(s, k, v);
    let r = rank(s, k);
    let t = put(s, k, v);
    let replaced = r < s.len() && s[r].0 == k;
    lemma_rank(s, k);
    if other == k {
        lemma_find_at(t, r);
    } else {
        lemma_find(s, other);
        lemma_find(t, other);
        if find(s, other).is_some() {
            let j = choose|j: int| 0 <= j < s.len() && #[trigger] s[j] == (
                other,
                find(s, other).unwrap(),
            );
            let j2 = if replaced || j < r {
                j
            } else {
                j + 1
            };
            assert(t[j2] == s[j]);
            lemma_find_at(t, j2);
        } else {
            assert forall|j: int| 0 <= j < t.len() implies (#[trigger] t[j]).0 != other by {
                if replaced {
                    if j != r {
                        assert(t[j] == s[j]);
                    }
                } else {
                    if j < r {
                        assert(t[j] == s[j]);
                    } else if j > r {
                        assert(t[j] == s[j - 1]);
                    }
                }
            }
        }
    }
}

/// The map of an ascending sequence after storing a value is the map from
/// before with that value inserted.
pub proof fn lemma_map_of_put<K: PartialOrd, V>(s: Seq<(K, V)>, k: K, v: V)
    requires
        total_order::<K>(),
        ascending(s),
    ensures
        map_of(put(s, k, v)) == map_of(s).insert(k, v),
{
    assert forall|other: K|
        find(put(s, k, v), other) == if other == k {
            Some(v)
        } else {
            find(s, other)
        } by {
        lemma_find_put(s, k, v, other);
    }
    assert(map_of(put(s, k, v)) =~= map_of(s).insert(k, v));
}

/// What a woven sequence holds before `parts[i]`.
pub open spec fn woven_before<E>(parts: Seq<Seq<E>>, seps: Seq<E>, i: int) -> Seq<E> {
    if i <= 0 {
        Seq::empty()
    } else {
        weave(parts.subrange(0, i), seps.subrange(0, i - 1)).push(seps[i - 1])
    }
}

/// What a woven sequence holds after `parts[i]`.
pub open spec fn woven_after<E>(parts: Seq<Seq<E>>, seps: Seq<E>, i: int) -> Seq<E> {
    if i >= seps.len() {
        Seq::empty()
    } else {
        seq![seps[i]] + weave(
            parts.subrange(i + 1, parts.len() as int),
            seps.subrange(i + 1, seps.len() as int),
        )
    }
}

/// A woven sequence falls into what is woven up to a separator, the
/// separator, and what is woven after it.
pub proof fn lemma_weave_split<E>(parts: Seq<Seq<E>>, seps: Seq<E>, m: int)
    requires
        parts.len() == seps.len() + 1,
        0 <= m < seps.len(),
    ensures
        weave(parts, seps) == weave(parts.subrange(0, m + 1), seps.subrange(0, m)).push(seps[m])
            + weave(
            parts.subrange(m + 1, parts.len() as int),
            seps.subrange(m + 1, seps.len() as int),
        ),
    decreases seps.len(),
{
    let n = seps.len() as int;
    let head = weave(parts.subrange(0, m + 1), seps.subrange(0, m)).push(seps[m]);
    let tail_parts = parts.subrange(m + 1, n + 1);
    let tail_seps = seps.subrange(m + 1, n);
    if m == n - 1 {
        assert(parts.subrange(0, m + 1) =~= parts.drop_last());
        assert(seps.subrange(0, m) =~= seps.drop_last());
        assert(tail_seps.len() == 0);
        assert(tail_parts[0] == parts.last());
    } else {
        lemma_weave_split(parts.drop_last(), seps.drop_last(), m);
        assert(parts.drop_last().subrange(0, m + 1) =~= parts.subrange(0, m + 1));
        assert(seps.drop_last().subrange(0, m) =~= seps.subrange(0, m));
        assert(parts.drop_last().subrange(m + 1, n) =~= tail_parts.drop_last());
        assert(seps.drop_last().subrange(m + 1, n - 1) =~= tail_seps.drop_last());
        assert(tail_parts.last() == parts.last());
        assert(tail_seps.last() == seps.last());
        let inner = weave(tail_parts.drop_last(), tail_seps.drop_last());
        assert(weave(tail_parts, tail_seps) == inner.push(seps.last()) + parts.last());
        assert(weave(parts, seps) == (head + inner).push(seps.last()) + parts.last());
        assert((head + inner).push(seps.last()) + parts.last() =~= head + (inner.push(
            seps.last(),
        ) + parts.last()));
    }
}

/// A woven sequence falls into what comes before a part, the part, and what
/// comes after it.
pub proof fn lemma_weave_around<E>(parts: Seq<Seq<E>>, seps: Seq<E>, i: int)
    requires
        parts.len() == seps.len() + 1,
        0 <= i < parts.len(),
    ensures
        weave(parts, seps) == woven_before(parts, seps, i) + parts[i] + woven_after(parts, seps, i),
{
    let n = seps.len() as int;
    let rest_parts = parts.subrange(i, n + 1);
    let rest_seps = seps.subrange(i, n);
    // from the part on
    if i < n {
        lemma_weave_split(rest_parts, rest_seps, 0);
        assert(rest_parts.subrange(0, 1) =~= seq![parts[i]]);
        assert(rest_seps.subrange(0, 0) =~= Seq::<E>::empty());
        assert(weave(seq![parts[i]], Seq::<E>::empty()) == parts[i]);
        assert(rest_parts.subrange(1, n + 1 - i) =~= parts.subrange(i + 1, n + 1));
        assert(rest_seps.subrange(1, n - i) =~= seps.subrange(i + 1, n));
        assert(weave(rest_parts, rest_seps) =~= parts[i] + woven_after(parts, seps, i));
    } else {
        assert(weave(rest_parts, rest_seps) == parts[i]);
        assert(weave(rest_parts, rest_seps) =~= parts[i] + woven_after(parts, seps, i));
    }
    // and up to it
    if i > 0 {
        lemma_weave_split(parts, seps, i - 1);
        assert(weave(parts, seps) =~= woven_before(parts, seps, i) + parts[i] + woven_after(
            parts,
            seps,
            i,
        ));
    } else {
        assert(rest_parts =~= parts);
        assert(rest_seps =~= seps);
        assert(weave(parts, seps) =~= woven_before(parts, seps, i) + parts[i] + woven_after(
            parts,
            seps,
            i,
        ));
    }
}

/// Replacing a part by two parts with a separator between them, which
/// together hold what the part held, leaves the woven sequence as it was.
pub proof fn lemma_weave_divide<E>(
    parts: Seq<Seq<E>>,
    seps: Seq<E>,
    i: int,
    lower: Seq<E>,
    mid: E,
    upper: Seq<E>,
)
    requires
        parts.len() == seps.len() + 1,
        0 <= i < parts.len(),
        parts[i] == lower.push(mid) + upper,
    ensures
        weave(parts.update(i, lower).insert(i + 1, upper), seps.insert(i, mid)) == weave(
            parts,
            seps,
        ),
{
    let n = seps.len() as int;
    let parts2 = parts.update(i, lower).insert(i + 1, upper);
    let seps2 = seps.insert(i, mid);
    lemma_weave_around(parts, seps, i);
    lemma_weave_around(parts2, seps2, i);
    assert(parts2.subrange(0, i) =~= parts.subrange(0, i));
    if i > 0 {
        assert(seps2.subrange(0, i - 1) =~= seps.subrange(0, i - 1));
        assert(seps2[i - 1] == seps[i - 1]);
    }
    assert(woven_before(parts2, seps2, i) == woven_before(parts, seps, i));
    // after the lower part come the separator, the upper part, and what
    // came after the part
    let tail_parts = parts2.subrange(i + 1, n + 2);
    let tail_seps = seps2.subrange(i + 1, n + 1);
    lemma_weave_around(tail_parts, tail_seps, 0);
    assert(tail_parts[0] == upper);
    assert(tail_seps =~= seps.subrange(i, n));
    assert(tail_parts.subrange(1, n + 1 - i) =~= parts.subrange(i + 1, n + 1));
    if i < n {
        assert(tail_seps.subrange(1, n - i) =~= seps.subrange(i + 1, n));
        assert(tail_seps[0] == seps[i]);
    }
    assert(woven_after(tail_parts, tail_seps, 0) =~= woven_after(parts, seps, i));
    assert(weave(tail_parts, tail_seps) =~= upper + woven_after(parts, seps, i));
    assert(woven_after(parts2, seps2, i) =~= seq![mid] + (upper + woven_after(parts, seps, i)));
    assert(weave(parts2, seps2) =~= weave(parts, seps));
}

/// Replacing a part leaves what comes before it and after it as it was.
pub proof fn lemma_weave_replace<E>(parts: Seq<Seq<E>>, seps: Seq<E>, i: int, part: Seq<E>)
    requires
        parts.len() == seps.len() + 1,
        0 <= i < parts.len(),
    ensures
        weave(parts.update(i, part), seps) == woven_before(parts, seps, i) + part + woven_after(
            parts,
            seps,
            i,
        ),
{
    let parts2 = parts.update(i, part);
    lemma_weave_around(parts2, seps, i);
    assert(parts2.subrange(0, i) =~= parts.subrange(0, i));
    assert(parts2.subrange(i + 1, parts.len() as int) =~= parts.subrange(
        i + 1,
        parts.len() as int,
    ));
}

/// In an ascending sequence a lookup finds the pair at the place of the key,
/// if the key is there.
pub proof fn lemma_find_by_rank<K: PartialOrd, V>(s: Seq<(K, V)>, k: K)
    requires
        total_order::<K>(),
        ascending(s),
    ensures
        find(s, k) == if rank(s, k) < s.len() && s[rank(s, k)].0 == k {
            Some(s[rank(s, k)].1)
        } else {
            None
        },
{
    lemma_rank(s, k);
    let r = rank(s, k);
    if r < s.len() && s[r].0 == k {
        lemma_find_at(s, r);
    } else {
        assert forall|j: int| 0 <= j < s.len() implies (#[trigger] s[j]).0 != k by {
            if j < r {
                assert(lt(s[j].0, k));
            } else if j > r {
                assert(lt(s[r].0, s[j].0));
                assert(!lt(s[r].0, k));
                lemma_le_chain(k, s[r].0, s[j].0);
            }
        }
        lemma_find(s, k);
    }
}

/// Where `k` lies above everything before a part of an ascending sequence
/// and below everything after it, lookup, place and storing of `k` all
/// happen inside the part.
pub proof fn lemma_inside<K: PartialOrd, V>(
    pre: Seq<(K, V)>,
    part: Seq<(K, V)>,
    post: Seq<(K, V)>,
    k: K,
    v: V,
)
    requires
        total_order::<K>(),
        ascending(pre + part + post),
        pre.len() > 0 ==> lt(pre.last().0, k),
        post.len() > 0 ==> lt(k, post[0].0),
    ensures
        ascending(part),
        find(pre + part + post, k) == find(part, k),
        rank(pre + part + post, k) == pre.len() + rank(part, k),
        put(pre + part + post, k, v) == pre + put(part, k, v) + post,
{
    let all = pre + part + post;
    let a = pre.len() as int;
    let b = a + part.len();
    assert(part =~= all.subrange(a, b));
    lemma_ascending_parts(all, a, b);
    lemma_rank(part, k);
    let r = rank(part, k);
    assert forall|j: int| 0 <= j < a + r implies lt((#[trigger] all[j]).0, k) by {
        if j < a {
            assert(all[a - 1] == pre.last());
            if j < a - 1 {
                assert(lt(all[j].0, all[a - 1].0));
                lemma_le_chain(all[j].0, pre.last().0, k);
            }
        } else {
            assert(all[j] == part[j - a]);
        }
    }
    assert forall|j: int| a + r <= j < all.len() implies !lt((#[trigger] all[j]).0, k) by {
        if j < b {
            assert(all[j] == part[j - a]);
        } else {
            assert(all[b] == post[0]);
            if j > b {
                assert(lt(all[b].0, all[j].0));
                lemma_le_chain(k, post[0].0, all[j].0);
            }
            lemma_le_chain(k, all[j].0, k);
        }
    }
    lemma_rank_unique(all, k, a + r);
    lemma_find_by_rank(all, k);
    lemma_find_by_rank(part, k);
    if r < part.len() {
        assert(all[a + r] == part[r]);
    } else if b < all.len() {
        assert(all[b] == post[0]);
    }
    assert(put(all, k, v) =~= pre + put(part, k, v) + post);
}

/// In an ascending sequence that has `k` at `pos`, storing a value for `k`
/// replaces the pair at `pos`.
pub proof fn lemma_put_at<K: PartialOrd, V>(s: Seq<(K, V)>, pos: int, k: K, v: V)
    requires
        total_order::<K>(),
        ascending(s),
        0 <= pos < s.len(),
        s[pos].0 == k,
    ensures
        rank(s, k) == pos,
        put(s, k, v) == s.update(pos, (k, v)),
        find(s, k) == Some(s[pos].1),
{
    assert forall|j: int| 0 <= j < pos implies lt((#[trigger] s[j]).0, k) by {
        assert(lt(s[j].0, s[pos].0));
    }
    assert forall|j: int| pos <= j < s.len() implies !lt((#[trigger] s[j]).0, k) by {
        if j > pos {
            assert(lt(s[pos].0, s[j].0));
            lemma_le_chain(k, s[j].0, k);
        }
    }
    lemma_rank_unique(s, k, pos);
    lemma_find_at(s, pos);
}

/// What is woven from the first `m + 1` parts ends with part `m`, after the
/// separator before it.
pub proof fn lemma_weave_last<E>(parts: Seq<Seq<E>>, seps: Seq<E>, m: int)
    requires
        parts.len() == seps.len() + 1,
        0 <= m <= seps.len(),
    ensures
        weave(parts.subrange(0, m + 1), seps.subrange(0, m)) == if m > 0 {
            weave(parts.subrange(0, m), seps.subrange(0, m - 1)).push(seps[m - 1]) + parts[m]
        } else {
            parts[0]
        },
        weave(parts.subrange(0, parts.len() as int), seps.subrange(0, seps.len() as int)) == weave(
            parts,
            seps,
        ),
{
    if m > 0 {
        assert(parts.subrange(0, m + 1).drop_last() =~= parts.subrange(0, m));
        assert(seps.subrange(0, m).drop_last() =~= seps.subrange(0, m - 1));
    }
    assert(parts.subrange(0, parts.len() as int) =~= parts);
    assert(seps.subrange(0, seps.len() as int) =~= seps);
}

/// The map of an ascending sequence has as many keys as the sequence has
/// pairs.
pub proof fn lemma_map_of_len<K: PartialOrd, V>(s: Seq<(K, V)>)
    requires
        total_order::<K>(),
        ascending(s),
    ensures
        map_of(s).dom().finite(),
        map_of(s).len() == s.len(),
    decreases s.len(),
{
    if s.len() == 0 {
        assert(map_of(s) =~= Map::<K, V>::empty());
    } else {
        let d = s.drop_last();
        lemma_ascending_parts(s, 0, s.len() - 1);
        assert(d =~= s.subrange(0, s.len() - 1));
        lemma_map_of_len(d);
        assert(map_of(s) =~= map_of(d).insert(s.last().0, s.last().1));
        assert forall|i: int| 0 <= i < d.len() implies (#[trigger] d[i]).0 != s.last().0 by {
            assert(lt(s[i].0, s[s.len() - 1].0));
        }
        lemma_find(d, s.last().0);
    }
}

} // verus!
