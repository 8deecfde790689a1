//! A map kept as a vector sorted by key, so that walking it visits the keys
//! in ascending order.

use vstd::prelude::*;

verus! {

/// Keys with a total order, given by a position on the integers.
pub trait Ranked: Copy {
    spec fn rank(self) -> int;

    /// Two keys at the same position are the same key.
    proof fn rank_is_injective(a: Self, b: Self)
        requires
            a.rank() == b.rank(),
        ensures
            a == b,
    ;

    fn precedes(self, other: Self) -> (r: bool)
        ensures
            r == (self.rank() < other.rank()),
    ;
}

impl Ranked for u128 {
    open spec fn rank(self) -> int {
        self as int
    }

    proof fn rank_is_injective(a: u128, b: u128) {
    }

    fn precedes(self, other: u128) -> (r: bool) {
        self < other
    }
}

/// The keys rise strictly.
pub open spec fn ascending<K: Ranked>(keys: Seq<K>) -> bool {
    forall|i: int, j: int| 0 <= i < j < keys.len() ==> keys[i].rank() < keys[j].rank()
}

/// The map that a sequence of pairs describes; a later pair for a key
/// replaces an earlier one.
pub open spec fn pairs_map<K, V>(pairs: Seq<(K, V)>) -> Map<K, V>
    decreases pairs.len(),
{
    if pairs.len() == 0 {
        Map::empty()
    } else {
        pairs_map(pairs.drop_last()).insert(pairs.last().0, pairs.last().1)
    }
}

/// The keys of a sequence of pairs.
pub open spec fn pairs_keys<K, V>(pairs: Seq<(K, V)>) -> Seq<K> {
    pairs.map_values(|p: (K, V)| p.0)
}

/// The pairs of a map in ascending order of their keys.
pub open spec fn sorted_pairs<K: Ranked, V>(m: Map<K, V>) -> Seq<(K, V)> {
    choose|s: Seq<(K, V)>| ascending(pairs_keys(s)) && pairs_map(s) == m
}

/// Any sorted sequence of pairs is *the* sorted sequence of its map.
pub proof fn lemma_sorted_pairs<K: Ranked, V>(s: Seq<(K, V)>)
    requires
        ascending(pairs_keys(s)),
    ensures
        sorted_pairs(pairs_map(s)) == s,
{
    lemma_pairs_map_unique(s, sorted_pairs(pairs_map(s)));
}

/// A finite set of keys that is not empty has a last key.
proof fn lemma_last_key<K: Ranked>(keys: Set<K>) -> (last: K)
    requires
        keys.finite(),
        !keys.is_empty(),
    ensures
        keys.contains(last),
        forall|k: K| #[trigger] keys.contains(k) ==> k.rank() <= last.rank(),
    decreases keys.len(),
{
    let k = keys.choose();
    let rest = keys.remove(k);
    if rest.is_empty() {
        assert forall|q: K| #[trigger] keys.contains(q) implies q.rank() <= k.rank() by {
            assert(q == k || rest.contains(q));
        }
        k
    } else {
        let last = lemma_last_key(rest);
        let r = if last.rank() < k.rank() {
            k
        } else {
            last
        };
        assert forall|q: K| #[trigger] keys.contains(q) implies q.rank() <= r.rank() by {
            assert(q == k || rest.contains(q));
        }
        r
    }
}

/// A finite map has a sorted sequence of pairs.
pub proof fn lemma_sorted_pairs_exist<K: Ranked, V>(m: Map<K, V>)
    requires
        m.dom().finite(),
    ensures
        ascending(pairs_keys(sorted_pairs(m))),
        pairs_map(sorted_pairs(m)) == m,
    decreases m.dom().len(),
{
    if m.dom().is_empty() {
        let s = Seq::<(K, V)>::empty();
        assert(ascending(pairs_keys(s)));
        assert(pairs_map(s) =~= m);
    } else {
        let last = lemma_last_key(m.dom());
        let rest = m.remove(last);
        assert(rest.dom() =~= m.dom().remove(last));
        lemma_sorted_pairs_exist(rest);
        let front = sorted_pairs(rest);
        let s = front.push((last, m[last]));
        assert(s.drop_last() =~= front);
        assert(pairs_map(s) =~= m);
        let keys = pairs_keys(s);
        assert(pairs_keys(front) =~= keys.drop_last());
        assert forall|i: int, j: int| 0 <= i < j < keys.len() implies keys[i].rank()
            < keys[j].rank() by {
            if j == keys.len() - 1 {
                lemma_pairs_map_at(front, i);
                assert(rest.contains_key(keys[i]));
                assert(m.dom().contains(keys[i]));
                if keys[i].rank() == last.rank() {
                    K::rank_is_injective(keys[i], last);
                }
            } else {
                assert(pairs_keys(front)[i].rank() < pairs_keys(front)[j].rank());
            }
        }
        assert(ascending(pairs_keys(s)) && pairs_map(s) == m);
    }
}

/// Pairs with the mathematical counterparts of their values.
pub open spec fn viewed_pairs<K, V: View>(pairs: Seq<(K, V)>) -> Seq<(K, V::V)> {
    pairs.map_values(|p: (K, V)| (p.0, p.1@))
}

/// A map with the mathematical counterparts of its values.
pub open spec fn viewed<K, V: View>(m: Map<K, V>) -> Map<K, V::V> {
    m.map_values(|v: V| v@)
}

/// The sorted pairs of a map, seen as mathematical values, are the sorted pairs
/// of the map of mathematical values.
pub proof fn lemma_viewed_pairs<K: Ranked, V: View>(pairs: Seq<(K, V)>)
    requires
        ascending(pairs_keys(pairs)),
    ensures
        sorted_pairs(viewed(pairs_map(pairs))) == viewed_pairs(pairs),
{
    lemma_viewed_map(pairs);
    assert(pairs_keys(viewed_pairs(pairs)) =~= pairs_keys(pairs));
    lemma_sorted_pairs(viewed_pairs(pairs));
}

proof fn lemma_viewed_map<K, V: View>(pairs: Seq<(K, V)>)
    ensures
        pairs_map(viewed_pairs(pairs)) == viewed(pairs_map(pairs)),
    decreases pairs.len(),
{
    if pairs.len() > 0 {
        lemma_viewed_map(pairs.drop_last());
        assert(viewed_pairs(pairs).drop_last() =~= viewed_pairs(pairs.drop_last()));
    }
    assert(pairs_map(viewed_pairs(pairs)) =~= viewed(pairs_map(pairs)));
}

#[derive(Debug)]
pub struct OrdMap<K, V> {
    items: Vec<(K, V)>,
}

pub proof fn lemma_pairs_map_dom<K, V>(pairs: Seq<(K, V)>, k: K)
    ensures
        pairs_map(pairs).contains_key(k) <==> exists|i: int|
            0 <= i < pairs.len() && (#[trigger] pairs[i]).0 == k,
    decreases pairs.len(),
{
    if pairs.len() > 0 {
        lemma_pairs_map_dom(pairs.drop_last(), k);
        if pairs_map(pairs).contains_key(k) {
            if k == pairs.last().0 {
                assert(pairs[pairs.len() - 1].0 == k);
            } else {
                let i = choose|i: int|
                    0 <= i < pairs.drop_last().len() && (#[trigger] pairs.drop_last()[i]).0 == k;
                assert(pairs[i].0 == k);
            }
        }
        if exists|i: int| 0 <= i < pairs.len() && (#[trigger] pairs[i]).0 == k {
            let i = choose|i: int| 0 <= i < pairs.len() && (#[trigger] pairs[i]).0 == k;
            if i < pairs.len() - 1 {
                assert(pairs.drop_last()[i].0 == k);
            }
        }
    }
}

pub proof fn lemma_pairs_map_at<K: Ranked, V>(pairs: Seq<(K, V)>, i: int)
    requires
        ascending(pairs_keys(pairs)),
        0 <= i < pairs.len(),
    ensures
        pairs_map(pairs).contains_key(pairs[i].0),
        pairs_map(pairs)[pairs[i].0] == pairs[i].1,
    decreases pairs.len(),
{
    let keys = pairs_keys(pairs);
    if i < pairs.len() - 1 {
        let front = pairs.drop_last();
        assert(pairs_keys(front) =~= keys.drop_last());
        assert(ascending(pairs_keys(front))) by {
            assert forall|a: int, b: int| 0 <= a < b < pairs_keys(front).len() implies pairs_keys(
                front,
            )[a].rank() < pairs_keys(front)[b].rank() by {
                assert(keys[a].rank() < keys[b].rank());
            }
        }
        lemma_pairs_map_at(front, i);
        assert(keys[i].rank() < keys[pairs.len() - 1].rank());
    }
}

/// Two sorted sequences of the same pairs are the same.
pub proof fn lemma_same_pairs<K: Ranked, V>(a: Seq<(K, V)>, b: Seq<(K, V)>)
    requires
        ascending(pairs_keys(a)),
        ascending(pairs_keys(b)),
        forall|p: (K, V)| #[trigger] a.contains(p) <==> b.contains(p),
    ensures
        a == b,
{
    let (m, n) = (pairs_map(a), pairs_map(b));
    assert forall|k: K| #[trigger] m.contains_key(k) implies n.contains_key(k) && n[k] == m[k] by {
        lemma_pairs_map_dom(a, k);
        let i = choose|i: int| 0 <= i < a.len() && (#[trigger] a[i]).0 == k;
        lemma_pairs_map_at(a, i);
        assert(a.contains(a[i]));
        let j = choose|j: int| 0 <= j < b.len() && b[j] == a[i];
        lemma_pairs_map_at(b, j);
    }
    assert forall|k: K| #[trigger] n.contains_key(k) implies m.contains_key(k) by {
        lemma_pairs_map_dom(b, k);
        let i = choose|i: int| 0 <= i < b.len() && (#[trigger] b[i]).0 == k;
        assert(b.contains(b[i]));
        assert(a.contains(b[i]));
        let j = choose|j: int| 0 <= j < a.len() && a[j] == b[i];
        lemma_pairs_map_at(a, j);
    }
    assert(m =~= n);
    lemma_pairs_map_unique(a, b);
}

/// Two sorted sequences of pairs that describe the same map are the same.
pub proof fn lemma_pairs_map_unique<K: Ranked, V>(a: Seq<(K, V)>, b: Seq<(K, V)>)
    requires
        ascending(pairs_keys(a)),
        ascending(pairs_keys(b)),
        pairs_map(a) == pairs_map(b),
    ensures
        a == b,
    decreases a.len(),
{
    if a.len() == 0 {
        if b.len() > 0 {
            lemma_pairs_map_at(b, 0);
        }
        assert(a =~= b);
    } else if b.len() == 0 {
        lemma_pairs_map_at(a, 0);
    } else {
        let ka = pairs_keys(a);
        let kb = pairs_keys(b);
        let la = a.last();
        let lb = b.last();
        lemma_pairs_map_at(a, a.len() - 1);
        lemma_pairs_map_at(b, b.len() - 1);
        lemma_pairs_map_dom(a, lb.0);
        lemma_pairs_map_dom(b, la.0);
        let i = choose|i: int| 0 <= i < a.len() && (#[trigger] a[i]).0 == lb.0;
        let j = choose|j: int| 0 <= j < b.len() && (#[trigger] b[j]).0 == la.0;
        assert(ka[i] == lb.0 && kb[j] == la.0);
        assert(ka[i].rank() <= ka[a.len() - 1].rank());
        assert(kb[j].rank() <= kb[b.len() - 1].rank());
        K::rank_is_injective(la.0, lb.0);
        assert(la == lb);
        let fa = a.drop_last();
        let fb = b.drop_last();
        lemma_ascending_prefix(a);
        lemma_ascending_prefix(b);
        assert(pairs_map(fa) =~= pairs_map(a).remove(la.0)) by {
            lemma_last_key_is_new(a);
        }
        assert(pairs_map(fb) =~= pairs_map(b).remove(lb.0)) by {
            lemma_last_key_is_new(b);
        }
        lemma_pairs_map_unique(fa, fb);
        assert(a =~= fa.push(la));
        assert(b =~= fb.push(lb));
    }
}

proof fn lemma_ascending_prefix<K: Ranked, V>(a: Seq<(K, V)>)
    requires
        ascending(pairs_keys(a)),
        a.len() > 0,
    ensures
        ascending(pairs_keys(a.drop_last())),
{
    let keys = pairs_keys(a);
    let front = pairs_keys(a.drop_last());
    assert forall|i: int, j: int| 0 <= i < j < front.len() implies front[i].rank()
        < front[j].rank() by {
        assert(keys[i].rank() < keys[j].rank());
    }
}

proof fn lemma_last_key_is_new<K: Ranked, V>(a: Seq<(K, V)>)
    requires
        ascending(pairs_keys(a)),
        a.len() > 0,
    ensures
        !pairs_map(a.drop_last()).contains_key(a.last().0),
{
    let keys = pairs_keys(a);
    lemma_pairs_map_dom(a.drop_last(), a.last().0);
    assert forall|i: int| 0 <= i < a.drop_last().len() implies (#[trigger] a.drop_last()[i]).0
        != a.last().0 by {
        assert(keys[i].rank() < keys[a.len() - 1].rank());
    }
}

pub proof fn lemma_pairs_map_len<K: Ranked, V>(a: Seq<(K, V)>)
    requires
        ascending(pairs_keys(a)),
    ensures
        pairs_map(a).dom().finite(),
        pairs_map(a).dom().len() == a.len(),
    decreases a.len(),
{
    if a.len() > 0 {
        lemma_ascending_prefix(a);
        lemma_last_key_is_new(a);
        lemma_pairs_map_len(a.drop_last());
        assert(pairs_map(a).dom() =~= pairs_map(a.drop_last()).dom().insert(a.last().0));
    } else {
        assert(pairs_map(a).dom() =~= Set::empty());
    }
}

/// A sorted sequence of pairs describes `m` as soon as its pairs are those of
/// `m`.
proof fn lemma_pairs_describe<K: Ranked, V>(pairs: Seq<(K, V)>, m: Map<K, V>)
    requires
        ascending(pairs_keys(pairs)),
        forall|i: int|
            0 <= i < pairs.len() ==> m.contains_key((#[trigger] pairs[i]).0) && m[pairs[i].0]
                == pairs[i].1,
        forall|k: K| #[trigger]
            m.contains_key(k) ==> exists|i: int|
                0 <= i < pairs.len() && (#[trigger] pairs[i]).0 == k,
    ensures
        pairs_map(pairs) == m,
{
    assert forall|k: K| #[trigger] pairs_map(pairs).contains_key(k) implies m.contains_key(k)
        && pairs_map(pairs)[k] == m[k] by {
        lemma_pairs_map_dom(pairs, k);
        let i = choose|i: int| 0 <= i < pairs.len() && (#[trigger] pairs[i]).0 == k;
        lemma_pairs_map_at(pairs, i);
    }
    assert forall|k: K| #[trigger] m.contains_key(k) implies pairs_map(pairs).contains_key(k) by {
        lemma_pairs_map_dom(pairs, k);
    }
    assert(pairs_map(pairs) =~= m);
}

impl<K: Ranked, V> OrdMap<K, V> {
    /// The pairs in ascending order of their keys.
    pub closed spec fn pairs(self) -> Seq<(K, V)> {
        self.items@
    }

    pub open spec fn wf(self) -> bool {
        ascending(pairs_keys(self.pairs()))
    }

    pub fn new() -> (r: Self)
        ensures
            r.wf(),
            r.pairs() == Seq::<(K, V)>::empty(),
            r@ == Map::<K, V>::empty(),
    {
        OrdMap { items: Vec::new() }
    }

    pub fn len(&self) -> (r: usize)
        requires
            self.wf(),
        ensures
            r == self.pairs().len(),
            self@.dom().finite(),
            r == self@.dom().len(),
    {
        proof {
            lemma_pairs_map_len(self.items@);
        }
        self.items.len()
    }

    /// The key at position `i` of the ascending order.
    pub fn key_at(&self, i: usize) -> (r: K)
        requires
            self.wf(),
            i < self.pairs().len(),
        ensures
            r == self.pairs()[i as int].0,
            self@.contains_key(r),
    {
        proof {
            lemma_pairs_map_at(self.items@, i as int);
        }
        self.items[i].0
    }

    /// The value at position `i` of the ascending order.
    pub fn value_at(&self, i: usize) -> (r: &V)
        requires
            self.wf(),
            i < self.pairs().len(),
        ensures
            *r == self.pairs()[i as int].1,
            self@.contains_key(self.pairs()[i as int].0),
            *r == self@[self.pairs()[i as int].0],
    {
        proof {
            lemma_pairs_map_at(self.items@, i as int);
        }
        &self.items[i].1
    }

    /// The number of keys that stand before `k`.
    fn lower_bound(&self, k: K) -> (r: usize)
        requires
            self.wf(),
        ensures
            r <= self.items@.len(),
            forall|i: int| 0 <= i < r ==> (#[trigger] self.items@[i]).0.rank() < k.rank(),
            forall|i: int|
                r <= i < self.items@.len() ==> (#[trigger] self.items@[i]).0.rank() >= k.rank(),
    {
        let mut lo: usize = 0;
        let mut hi: usize = self.items.len();
        while lo < hi
            invariant
                self.wf(),
                lo <= hi <= self.items@.len(),
                forall|i: int| 0 <= i < lo ==> (#[trigger] self.items@[i]).0.rank() < k.rank(),
                forall|i: int|
                    hi <= i < self.items@.len() ==> (#[trigger] self.items@[i]).0.rank()
                        >= k.rank(),
            decreases hi - lo,
        {
            let mid: usize = lo + (hi - lo) / 2;
            let ghost keys = pairs_keys(self.items@);
            if self.items[mid].0.precedes(k) {
                assert forall|i: int| 0 <= i < mid + 1 implies (#[trigger] self.items@[i]).0.rank()
                    < k.rank() by {
                    assert(keys[i].rank() <= keys[mid as int].rank());
                }
                lo = mid + 1;
            } else {
                assert forall|i: int| mid <= i < self.items@.len() implies (
                #[trigger] self.items@[i]).0.rank() >= k.rank() by {
                    assert(keys[i].rank() >= keys[mid as int].rank());
                }
                hi = mid;
            }
        }
        lo
    }

    /// Position of `k`, if it is there.
    pub fn position(&self, k: K) -> (r: Option<usize>)
        requires
            self.wf(),
        ensures
            match r {
                Some(i) => i < self.pairs().len() && self.pairs()[i as int].0 == k
                    && self@.contains_key(k) && self@[k] == self.pairs()[i as int].1,
                None => !self@.contains_key(k),
            },
    {
        let i = self.lower_bound(k);
        proof {
            lemma_pairs_map_dom(self.items@, k);
        }
        if i < self.items.len() && !k.precedes(self.items[i].0) {
            proof {
                K::rank_is_injective(k, self.items@[i as int].0);
                lemma_pairs_map_at(self.items@, i as int);
            }
            Some(i)
        } else {
            proof {
                let keys = pairs_keys(self.items@);
                assert forall|j: int| 0 <= j < self.items@.len() implies (
                #[trigger] self.items@[j]).0 != k by {
                    if j > i {
                        assert(keys[i as int].rank() < keys[j].rank());
                    }
                }
            }
            None
        }
    }

    pub fn contains_key(&self, k: K) -> (r: bool)
        requires
            self.wf(),
        ensures
            r == self@.contains_key(k),
    {
        self.position(k).is_some()
    }

    pub fn get(&self, k: K) -> (r: Option<&V>)
        requires
            self.wf(),
        ensures
            match r {
                Some(v) => self@.contains_key(k) && self@[k] == *v,
                None => !self@.contains_key(k),
            },
    {
        match self.position(k) {
            Some(i) => Some(&self.items[i].1),
            None => None,
        }
    }

    /// Puts `v` in the place of the value at position `i` and hands that out.
    pub fn swap_at(&mut self, i: usize, v: V) -> (r: V)
        requires
            old(self).wf(),
            i < old(self).pairs().len(),
        ensures
            final(self).wf(),
            final(self).pairs() == old(self).pairs().update(
                i as int,
                (old(self).pairs()[i as int].0, v),
            ),
            final(self)@ == old(self)@.insert(old(self).pairs()[i as int].0, v),
            r == old(self).pairs()[i as int].1,
    {
        let ghost before = self.items@;
        let mut other = v;
        std::mem::swap(&mut self.items[i].1, &mut other);
        proof {
            let after = self.items@;
            assert(after =~= before.update(i as int, (before[i as int].0, v)));
            assert(pairs_keys(after) =~= pairs_keys(before));
            let m = pairs_map(before).insert(before[i as int].0, v);
            let keys = pairs_keys(before);
            assert forall|j: int| 0 <= j < after.len() implies m.contains_key(
                (#[trigger] after[j]).0,
            ) && m[after[j].0] == after[j].1 by {
                lemma_pairs_map_at(before, j);
                if j < i {
                    assert(keys[j].rank() < keys[i as int].rank());
                } else if j > i {
                    assert(keys[i as int].rank() < keys[j].rank());
                }
            }
            assert forall|q: K| #[trigger] m.contains_key(q) implies exists|j: int|
                0 <= j < after.len() && (#[trigger] after[j]).0 == q by {
                if q == before[i as int].0 {
                    assert(after[i as int].0 == q);
                } else {
                    lemma_pairs_map_dom(before, q);
                    let j = choose|j: int| 0 <= j < before.len() && (#[trigger] before[j]).0 == q;
                    assert(after[j].0 == q);
                }
            }
            lemma_pairs_describe(after, m);
        }
        other
    }

    /// Binds `k` to `v`, replacing what it was bound to.
    pub fn insert(&mut self, k: K, v: V)
        requires
            old(self).wf(),
        ensures
            final(self).wf(),
            final(self)@ == old(self)@.insert(k, v),
    {
        let i = self.lower_bound(k);
        let ghost before = self.items@;
        let ghost keys = pairs_keys(before);
        if i < self.items.len() && !k.precedes(self.items[i].0) {
            proof {
                K::rank_is_injective(k, before[i as int].0);
            }
            self.items.set(i, (k, v));
            proof {
                assert(pairs_keys(self.items@) =~= keys);
            }
        } else {
            self.items.insert(i, (k, v));
            proof {
                let after = pairs_keys(self.items@);
                assert forall|a: int, b: int| 0 <= a < b < after.len() implies after[a].rank()
                    < after[b].rank() by {
                    let a0 = if a < i { a } else { a - 1 };
                    let b0 = if b < i { b } else { b - 1 };
                    if a < i {
                        assert(after[a] == keys[a]);
                    }
                    if b > i {
                        assert(after[b] == keys[b - 1]);
                        assert(before[b - 1].0.rank() >= k.rank());
                        if before[b - 1].0.rank() == k.rank() {
                            assert(keys[i as int].rank() <= keys[b - 1].rank());
                        }
                    }
                    if a > i {
                        assert(after[a] == keys[a - 1]);
                    }
                    if b < i {
                        assert(after[b] == keys[b]);
                    }
                }
            }
        }
        proof {
            let after = self.items@;
            let m = pairs_map(before).insert(k, v);
            assert forall|j: int| 0 <= j < after.len() implies m.contains_key(
                (#[trigger] after[j]).0,
            ) && m[after[j].0] == after[j].1 by {
                let now = pairs_keys(after);
                if j < i {
                    lemma_pairs_map_at(before, j);
                } else if j > i {
                    assert(now[i as int].rank() < now[j].rank());
                    if after.len() == before.len() {
                        lemma_pairs_map_at(before, j);
                    } else {
                        lemma_pairs_map_at(before, j - 1);
                    }
                }
            }
            assert forall|q: K| #[trigger] m.contains_key(q) implies exists|j: int|
                0 <= j < after.len() && (#[trigger] after[j]).0 == q by {
                if q == k {
                    assert(after[i as int].0 == q);
                } else {
                    lemma_pairs_map_dom(before, q);
                    let j = choose|j: int| 0 <= j < before.len() && (#[trigger] before[j]).0 == q;
                    if after.len() == before.len() || j < i {
                        assert(after[j].0 == q);
                    } else {
                        assert(after[j + 1].0 == q);
                    }
                }
            }
            lemma_pairs_describe(after, m);
        }
    }

    /// Unbinds `k` and returns what it was bound to.
    pub fn remove(&mut self, k: K) -> (r: Option<V>)
        requires
            old(self).wf(),
        ensures
            final(self).wf(),
            final(self)@ == old(self)@.remove(k),
            match r {
                Some(v) => old(self)@.contains_key(k) && old(self)@[k] == v,
                None => !old(self)@.contains_key(k),
            },
    {
        match self.position(k) {
            None => {
                proof {
                    assert(self@.remove(k) =~= self@);
                }
                None
            },
            Some(i) => {
                let ghost before = self.items@;
                let ghost keys = pairs_keys(before);
                let (_, v) = self.items.remove(i);
                proof {
                    let after = self.items@;
                    let now = pairs_keys(after);
                    assert forall|a: int, b: int| 0 <= a < b < now.len() implies now[a].rank()
                        < now[b].rank() by {
                        let a0 = if a < i { a } else { a + 1 };
                        let b0 = if b < i { b } else { b + 1 };
                        assert(now[a] == keys[a0] && now[b] == keys[b0]);
                    }
                    let m = pairs_map(before).remove(k);
                    assert forall|j: int| 0 <= j < after.len() implies m.contains_key(
                        (#[trigger] after[j]).0,
                    ) && m[after[j].0] == after[j].1 by {
                        let j0 = if j < i { j } else { j + 1 };
                        lemma_pairs_map_at(before, j0);
                        assert(after[j] == before[j0]);
                        assert(keys[j0] != keys[i as int]) by {
                            if j0 < i {
                                assert(keys[j0].rank() < keys[i as int].rank());
                            } else {
                                assert(keys[i as int].rank() < keys[j0].rank());
                            }
                        }
                    }
                    assert forall|q: K| #[trigger] m.contains_key(q) implies exists|j: int|
                        0 <= j < after.len() && (#[trigger] after[j]).0 == q by {
                        lemma_pairs_map_dom(before, q);
                        let j = choose|j: int|
                            0 <= j < before.len() && (#[trigger] before[j]).0 == q;
                        if j < i {
                            assert(after[j].0 == q);
                        } else {
                            assert(after[j - 1].0 == q);
                        }
                    }
                    lemma_pairs_describe(after, m);
                }
                Some(v)
            },
        }
    }

    /// Unbinds everything.
    pub fn clear(&mut self)
        ensures
            final(self).wf(),
            final(self)@ == Map::<K, V>::empty(),
    {
        self.items.clear();
    }

    /// Drops the pairs whose keys the other map does not have.
    pub fn retain_keys<W>(&mut self, keys: &OrdMap<K, W>)
        requires
            old(self).wf(),
            keys.wf(),
        ensures
            final(self).wf(),
            final(self)@ == old(self)@.restrict(keys@.dom()),
    {
        let ghost before = self.items@;
        let mut from: Vec<(K, V)> = Vec::new();
        std::mem::swap(&mut from, &mut self.items);
        let mut out: OrdMap<K, V> = OrdMap::new();
        for pair in it: from
            invariant
                it.seq() == before,
                it.index() <= before.len(),
                keys.wf(),
                out.wf(),
                ascending(pairs_keys(before)),
                out@ == pairs_map(before.take(it.index() as int)).restrict(keys@.dom()),
        {
            let ghost n = it.index() as int;
            let (k, v) = pair;
            proof {
                assert(before.take(n + 1).drop_last() =~= before.take(n));
                assert(before.take(n + 1).last() == (k, v));
            }
            if keys.contains_key(k) {
                out.insert(k, v);
            } else {
                proof {
                    lemma_pairs_map_dom(before.take(n), k);
                    let ks = pairs_keys(before);
                    if pairs_map(before.take(n)).contains_key(k) {
                        let i = choose|i: int|
                            0 <= i < n && (#[trigger] before.take(n)[i]).0 == k;
                        assert(ks[i].rank() < ks[n].rank());
                    }
                }
            }
            assert(out@ =~= pairs_map(before.take(n + 1)).restrict(keys@.dom()));
        }
        assert(before.take(before.len() as int) =~= before);
        self.items = out.items;
    }

    /// The pairs as they stand.
    pub fn as_pairs(&self) -> (r: &Vec<(K, V)>)
        ensures
            r@ == self.pairs(),
    {
        &self.items
    }

    /// The pairs in ascending order of their keys.
    pub fn into_pairs(self) -> (r: Vec<(K, V)>)
        requires
            self.wf(),
        ensures
            r@ == self.pairs(),
            pairs_map(r@) == self@,
            ascending(pairs_keys(r@)),
    {
        self.items
    }
}

impl<K: Ranked, V: Clone> Clone for OrdMap<K, V> {
    fn clone(&self) -> (r: OrdMap<K, V>)
        ensures
            r.pairs().len() == self.pairs().len(),
            pairs_keys(r.pairs()) == pairs_keys(self.pairs()),
            r.wf() == self.wf(),
            forall|i: int|
                0 <= i < self.pairs().len() ==> cloned::<V>(
                    self.pairs()[i].1,
                    (#[trigger] r.pairs()[i]).1,
                ),
    {
        let mut items: Vec<(K, V)> = Vec::new();
        let mut i: usize = 0;
        while i < self.items.len()
            invariant
                i <= self.items.len(),
                items@.len() == i,
                forall|j: int|
                    0 <= j < i ==> (#[trigger] items@[j]).0 == self.items@[j].0 && cloned::<V>(
                        self.items@[j].1,
                        items@[j].1,
                    ),
            decreases self.items.len() - i,
        {
            items.push((self.items[i].0, self.items[i].1.clone()));
            i += 1;
        }
        assert(pairs_keys(items@) =~= pairs_keys(self.items@));
        OrdMap { items }
    }
}

impl<K: Ranked, V> View for OrdMap<K, V> {
    type V = Map<K, V>;

    open spec fn view(&self) -> Map<K, V> {
        pairs_map(self.pairs())
    }
}

} // verus!
