use vstd::prelude::*;

use std::collections::HashMap;
use std::hash::Hash;

use crate::list::{
    lemma_move_to_front_members, lemma_values_move_linked, lemma_values_move_unlinked, lemma_values_pop_back,
    lemma_values_push_front, lemma_values_set_first, lemma_values_detach_front,
    Handle, List, ListModel, NodeRef,
};

verus! {

/// Cloning a key gives back the same key.
pub open spec fn clones_exactly<K: Clone>() -> bool {
    forall|a: K, b: K| #[trigger] cloned(a, b) ==> a == b
}

/// What an [`LRU`] cache holds, as its contracts see it.
#[verifier::reject_recursive_types(K)]
pub struct CacheModel<K, V> {
    /// The most entries the cache keeps.
    pub cap: usize,
    /// The entries the cache counts against its capacity: those in `entries`
    /// and those in `parked`.
    pub size: nat,
    /// The entries in recency order, most recently used first.
    pub entries: Seq<(K, V)>,
    /// Entries that `del` took out of the recency order but that the cache
    /// still indexes: a later `get` or `set` of the key brings them back.
    pub parked: Map<K, V>,
    /// The recency order lost its tail pointer (see [`ListModel`]).
    pub tail_lost: bool,
}

impl<K, V> CacheModel<K, V> {
    pub open spec fn keys(self) -> Seq<K> {
        self.entries.map_values(|e: (K, V)| e.0)
    }

    /// The position of `k` among the entries.
    pub open spec fn pos(self, k: K) -> int {
        self.keys().index_of(k)
    }

    pub open spec fn has_entry(self, k: K) -> bool {
        self.keys().contains(k)
    }

    /// The cache indexes `k`, in the recency order or parked.
    pub open spec fn indexed(self, k: K) -> bool {
        self.has_entry(k) || self.parked.contains_key(k)
    }

    pub open spec fn wf(self) -> bool {
        &&& self.keys().no_duplicates()
        &&& self.parked.dom().finite()
        &&& forall|k: K| #[trigger] self.parked.contains_key(k) ==> !self.has_entry(k)
        &&& self.size == self.entries.len() + self.parked.len()
        &&& self.size <= self.cap
        &&& self.tail_lost ==> self.entries.len() > 0
    }

    /// The model of a new cache.
    pub open spec fn empty(cap: usize) -> CacheModel<K, V> {
        CacheModel { cap, size: 0, entries: Seq::empty(), parked: Map::empty(), tail_lost: false }
    }

    /// `set` of a key the cache does not index, in a full cache, must evict
    /// the last entry; it cannot when the recency order is empty or has lost
    /// its tail.
    pub open spec fn can_set(self, k: K) -> bool {
        !(self.cap > 0 && !self.indexed(k) && self.size == self.cap && (self.entries.len() == 0
            || self.tail_lost))
    }

    /// The value stored under `k`.
    pub open spec fn lookup(self, k: K) -> Option<V> {
        if self.has_entry(k) {
            Some(self.entries[self.pos(k)].1)
        } else if self.parked.contains_key(k) {
            Some(self.parked[k])
        } else {
            None
        }
    }

    /// `k` is made the most recently used entry, with the value `v`.
    pub open spec fn set(self, k: K, v: V) -> CacheModel<K, V> {
        if self.has_entry(k) {
            CacheModel { entries: seq![(k, v)] + self.entries.remove(self.pos(k)), ..self }
        } else if self.parked.contains_key(k) {
            CacheModel {
                entries: seq![(k, v)] + self.entries,
                parked: self.parked.remove(k),
                tail_lost: self.tail_lost || self.entries.len() == 0,
                ..self
            }
        } else if self.cap == 0 {
            self
        } else if self.size == self.cap {
            CacheModel { entries: seq![(k, v)] + self.entries.drop_last(), ..self }
        } else {
            CacheModel { entries: seq![(k, v)] + self.entries, size: self.size + 1, ..self }
        }
    }

    /// A read of `k` makes it the most recently used entry.
    pub open spec fn get(self, k: K) -> CacheModel<K, V> {
        if self.has_entry(k) {
            let i = self.pos(k);
            CacheModel { entries: seq![self.entries[i]] + self.entries.remove(i), ..self }
        } else if self.parked.contains_key(k) {
            CacheModel {
                entries: seq![(k, self.parked[k])] + self.entries,
                parked: self.parked.remove(k),
                tail_lost: self.tail_lost || self.entries.len() == 0,
                ..self
            }
        } else {
            self
        }
    }

    /// `k` leaves the recency order and is parked.
    pub open spec fn del(self, k: K) -> CacheModel<K, V> {
        if self.has_entry(k) {
            let i = self.pos(k);
            CacheModel {
                entries: self.entries.remove(i),
                parked: self.parked.insert(k, self.entries[i].1),
                tail_lost: self.tail_lost && self.entries.len() > 1,
                ..self
            }
        } else {
            self
        }
    }
}

proof fn lemma_pos<K, V>(m: CacheModel<K, V>, k: K)
    requires
        m.has_entry(k),
    ensures
        0 <= m.pos(k) < m.entries.len(),
        m.keys()[m.pos(k)] == k,
        m.entries[m.pos(k)].0 == k,
{
}

/// Moving the key at position `i` to the front keeps the keys distinct and
/// the same keys present.
proof fn lemma_keys_move_front<K>(keys: Seq<K>, i: int)
    requires
        keys.no_duplicates(),
        0 <= i < keys.len(),
    ensures
        (seq![keys[i]] + keys.remove(i)).no_duplicates(),
        forall|q: K| #[trigger] (seq![keys[i]] + keys.remove(i)).contains(q) <==> keys.contains(q),
{
    let s = seq![keys[i]] + keys.remove(i);
    assert forall|x: int| 0 <= x < s.len() implies #[trigger] s[x] == keys[if x == 0 {
        i
    } else if x - 1 < i {
        x - 1
    } else {
        x
    }] by {}
    assert forall|x: int, y: int| 0 <= x < s.len() && 0 <= y < s.len() && x != y implies s[x] != s[y] by {
        let jx = if x == 0 { i } else if x - 1 < i { x - 1 } else { x };
        let jy = if y == 0 { i } else if y - 1 < i { y - 1 } else { y };
        assert(s[x] == keys[jx] && s[y] == keys[jy]);
    }
    assert forall|q: K| #[trigger] s.contains(q) <==> keys.contains(q) by {
        if s.contains(q) {
            let x = choose|x: int| 0 <= x < s.len() && s[x] == q;
            let jx = if x == 0 { i } else if x - 1 < i { x - 1 } else { x };
            assert(keys[jx] == q);
        }
        if keys.contains(q) {
            let y = choose|y: int| 0 <= y < keys.len() && keys[y] == q;
            let x = if y == i { 0 } else if y < i { y + 1 } else { y };
            assert(s[x] == q);
        }
    }
}

/// Putting a new key in front keeps the keys distinct.
proof fn lemma_keys_prepend<K>(keys: Seq<K>, k: K)
    requires
        keys.no_duplicates(),
        !keys.contains(k),
    ensures
        (seq![k] + keys).no_duplicates(),
        forall|q: K| #[trigger] (seq![k] + keys).contains(q) <==> (q == k || keys.contains(q)),
{
    let s = seq![k] + keys;
    assert forall|x: int, y: int| 0 <= x < s.len() && 0 <= y < s.len() && x != y implies s[x] != s[y] by {
        if x > 0 && y > 0 {
            assert(s[x] == keys[x - 1] && s[y] == keys[y - 1]);
        } else if x == 0 {
            assert(keys.contains(s[y]));
        } else {
            assert(keys.contains(s[x]));
        }
    }
    assert forall|q: K| #[trigger] s.contains(q) <==> (q == k || keys.contains(q)) by {
        if s.contains(q) && q != k {
            let x = choose|x: int| 0 <= x < s.len() && s[x] == q;
            assert(keys[x - 1] == q);
        }
        if keys.contains(q) {
            let y = choose|y: int| 0 <= y < keys.len() && keys[y] == q;
            assert(s[y + 1] == q);
        }
        assert(s[0] == k);
    }
}

/// Removing the key at position `i` keeps the other keys distinct.
proof fn lemma_keys_remove<K>(keys: Seq<K>, i: int)
    requires
        keys.no_duplicates(),
        0 <= i < keys.len(),
    ensures
        keys.remove(i).no_duplicates(),
        forall|q: K| #[trigger] keys.remove(i).contains(q) <==> (keys.contains(q) && q != keys[i]),
{
    let s = keys.remove(i);
    assert forall|x: int, y: int| 0 <= x < s.len() && 0 <= y < s.len() && x != y implies s[x] != s[y] by {
        let jx = if x < i { x } else { x + 1 };
        let jy = if y < i { y } else { y + 1 };
        assert(s[x] == keys[jx] && s[y] == keys[jy]);
    }
    assert forall|q: K| #[trigger] s.contains(q) <==> (keys.contains(q) && q != keys[i]) by {
        if s.contains(q) {
            let x = choose|x: int| 0 <= x < s.len() && s[x] == q;
            let jx = if x < i { x } else { x + 1 };
            assert(keys[jx] == q);
        }
        if keys.contains(q) && q != keys[i] {
            let y = choose|y: int| 0 <= y < keys.len() && keys[y] == q;
            let x = if y < i { y } else { y - 1 };
            assert(s[x] == q);
        }
    }
}

/// Setting keeps the cache well formed.
pub proof fn lemma_set_wf<K, V>(m: CacheModel<K, V>, k: K, v: V)
    requires
        m.wf(),
        m.can_set(k),
    ensures
        m.set(k, v).wf(),
{
    let m2 = m.set(k, v);
    let keys = m.keys();
    if m.has_entry(k) {
        lemma_pos(m, k);
        let i = m.pos(k);
        assert(m2.keys() =~= seq![keys[i]] + keys.remove(i));
        lemma_keys_move_front(keys, i);
    } else if m.parked.contains_key(k) {
        assert(m2.keys() =~= seq![k] + keys);
        lemma_keys_prepend(keys, k);
        assert(m2.parked.len() == m.parked.len() - 1);
    } else if m.cap == 0 {
    } else if m.size == m.cap {
        let n = keys.len() as int;
        assert(keys.drop_last() =~= keys.remove(n - 1));
        lemma_keys_remove(keys, n - 1);
        lemma_keys_prepend(keys.drop_last(), k);
        assert(m2.keys() =~= seq![k] + keys.drop_last());
    } else {
        assert(m2.keys() =~= seq![k] + keys);
        lemma_keys_prepend(keys, k);
    }
}

/// Reading keeps the cache well formed.
pub proof fn lemma_get_wf<K, V>(m: CacheModel<K, V>, k: K)
    requires
        m.wf(),
    ensures
        m.get(k).wf(),
{
    let m2 = m.get(k);
    let keys = m.keys();
    if m.has_entry(k) {
        lemma_pos(m, k);
        let i = m.pos(k);
        assert(m2.keys() =~= seq![keys[i]] + keys.remove(i));
        lemma_keys_move_front(keys, i);
    } else if m.parked.contains_key(k) {
        assert(m2.keys() =~= seq![k] + keys);
        lemma_keys_prepend(keys, k);
        assert(m2.parked.len() == m.parked.len() - 1);
    }
}

/// Deleting keeps the cache well formed.
pub proof fn lemma_del_wf<K, V>(m: CacheModel<K, V>, k: K)
    requires
        m.wf(),
    ensures
        m.del(k).wf(),
{
    let m2 = m.del(k);
    let keys = m.keys();
    if m.has_entry(k) {
        lemma_pos(m, k);
        let i = m.pos(k);
        assert(m2.keys() =~= keys.remove(i));
        lemma_keys_remove(keys, i);
        assert(!m.parked.contains_key(k));
        assert(m2.parked.len() == m.parked.len() + 1);
    }
}

/// A cache never holds more entries than its capacity, and no key twice.
pub proof fn law_within_capacity<K, V>(m: CacheModel<K, V>)
    requires
        m.wf(),
    ensures
        m.entries.len() <= m.cap,
        m.keys().no_duplicates(),
{
}

/// After `set(k, v)` in a cache of nonzero capacity, `k` is the most recently
/// used entry and holds `v`.
pub proof fn law_set_then_lookup<K, V>(m: CacheModel<K, V>, k: K, v: V)
    requires
        m.wf(),
        m.can_set(k),
        m.cap > 0,
    ensures
        m.set(k, v).entries[0] == (k, v),
        m.set(k, v).lookup(k) == Some(v),
{
    lemma_set_wf(m, k, v);
    let m2 = m.set(k, v);
    assert(m2.entries[0] == (k, v));
    assert(m2.keys()[0] == k);
    assert(m2.has_entry(k));
    let p = m2.pos(k);
    assert(m2.keys()[p] == k);
    assert(p == 0) by {
        if p != 0 {
            assert(m2.keys()[p] == m2.keys()[0]);
        }
    }
}

/// A read that finds `k` makes it the most recently used entry and changes
/// no stored value.
pub proof fn law_get_makes_most_recent<K, V>(m: CacheModel<K, V>, k: K, q: K)
    requires
        m.wf(),
        m.lookup(k) is Some,
    ensures
        m.get(k).entries[0] == (k, m.lookup(k)->0),
        m.get(k).lookup(q) == m.lookup(q),
        m.get(k).entries.len() == m.entries.len() + (if m.has_entry(k) {
            0int
        } else {
            1int
        }),
{
    lemma_get_wf(m, k);
    let m2 = m.get(k);
    if m.has_entry(k) {
        lemma_pos(m, k);
    }
    lemma_lookup_moved(m, m2, k, q);
}

/// Setting `k` changes the value of no other key, except the least recently
/// used entry that a full cache evicts for a new key.
pub proof fn law_set_keeps_others<K, V>(m: CacheModel<K, V>, k: K, v: V, q: K)
    requires
        m.wf(),
        m.can_set(k),
        q != k,
    ensures
        ({
            let evicts = m.cap > 0 && !m.indexed(k) && m.size == m.cap;
            &&& evicts ==> m.entries.len() > 0 && !m.set(k, v).indexed(m.entries.last().0)
            &&& !(evicts && q == m.entries.last().0) ==> m.set(k, v).lookup(q) == m.lookup(q)
        }),
{
    lemma_set_wf(m, k, v);
    let m2 = m.set(k, v);
    let keys = m.keys();
    let keys2 = m2.keys();
    let evicts = m.cap > 0 && !m.indexed(k) && m.size == m.cap;
    if m.has_entry(k) {
        lemma_pos(m, k);
        let i = m.pos(k);
        assert(keys2 =~= seq![k] + keys.remove(i));
        lemma_lookup_same_except(m, m2, q, |x: int| if x == 0 { i } else if x - 1 < i { x - 1 } else { x }, |y: int| if y < i { y + 1 } else { y }, i);
    } else if m.parked.contains_key(k) {
        assert(keys2 =~= seq![k] + keys);
        lemma_lookup_same_except(m, m2, q, |x: int| x - 1, |y: int| y + 1, -1);
    } else if m.cap == 0 {
    } else if m.size == m.cap {
        let n = m.entries.len() as int;
        let e = m.entries.last().0;
        assert(keys2 =~= seq![k] + keys.drop_last());
        assert(!m2.has_entry(e)) by {
            if m2.has_entry(e) {
                let x = choose|x: int| 0 <= x < keys2.len() && keys2[x] == e;
                assert(keys[n - 1] == e);
                assert(m.has_entry(e));
                assert(x != 0);
                assert(keys[x - 1] == keys[n - 1]);
            }
        }
        assert(!m2.parked.contains_key(e)) by {
            assert(keys[n - 1] == e);
        }
        if q != e {
            lemma_lookup_same_except(m, m2, q, |x: int| x - 1, |y: int| y + 1, n - 1);
        }
    } else {
        assert(keys2 =~= seq![k] + keys);
        lemma_lookup_same_except(m, m2, q, |x: int| x - 1, |y: int| y + 1, -1);
    }
}

/// `del(k)` takes `k` out of the recency order, keeps the order of the other
/// entries, and (the index keeping the key) leaves the value under `k` where
/// a later `get` finds it.
pub proof fn law_del<K, V>(m: CacheModel<K, V>, k: K)
    requires
        m.wf(),
    ensures
        !m.del(k).has_entry(k),
        m.has_entry(k) ==> m.del(k).entries == m.entries.remove(m.pos(k)),
        m.del(k).lookup(k) == m.lookup(k),
        m.del(k).size == m.size,
{
    lemma_del_wf(m, k);
    let m2 = m.del(k);
    if m.has_entry(k) {
        lemma_pos(m, k);
        let i = m.pos(k);
        assert(m2.keys() =~= m.keys().remove(i));
        if m2.has_entry(k) {
            let x = choose|x: int| 0 <= x < m2.keys().len() && m2.keys()[x] == k;
            let j = if x < i { x } else { x + 1 };
            assert(m.keys()[j] == m.keys()[i]);
        }
    }
}

/// Where `set(k, v)` puts the entries of a cache of nonzero capacity:
/// `(k, v)` comes first and the other entries follow in their old order. A
/// new key in a cache with room is simply prepended, and nothing is evicted;
/// a new key in a full cache evicts exactly the least recently used entry,
/// the last; a key already in the order is taken from its place; a parked
/// key comes back in front of all entries. The size grows by one exactly
/// when a new key finds room.
pub proof fn law_set_recency<K, V>(m: CacheModel<K, V>, k: K, v: V)
    requires
        m.wf(),
        m.can_set(k),
        m.cap > 0,
    ensures
        !m.indexed(k) && m.size < m.cap ==> m.set(k, v).entries == seq![(k, v)] + m.entries,
        !m.indexed(k) && m.size == m.cap ==> m.set(k, v).entries == seq![(k, v)]
            + m.entries.take(m.entries.len() - 1),
        m.has_entry(k) ==> m.set(k, v).entries == seq![(k, v)] + m.entries.remove(m.pos(k)),
        m.parked.contains_key(k) ==> m.set(k, v).entries == seq![(k, v)] + m.entries,
        m.set(k, v).size == m.size + (if !m.indexed(k) && m.size < m.cap {
            1int
        } else {
            0int
        }),
{
    assert(m.entries.drop_last() =~= m.entries.take(m.entries.len() - 1));
}

/// A read of a key the cache does not index changes nothing; a read of a
/// key in the recency order moves its entry, unchanged, to the front and
/// keeps the other entries in their order; a read of a parked key brings
/// its entry back in front of all entries.
pub proof fn law_get_recency<K, V>(m: CacheModel<K, V>, k: K)
    requires
        m.wf(),
    ensures
        !m.indexed(k) ==> m.get(k) == m,
        m.has_entry(k) ==> m.get(k).entries == seq![(k, m.lookup(k)->0)] + m.entries.remove(
            m.pos(k),
        ),
        m.parked.contains_key(k) ==> m.get(k).entries == seq![(k, m.parked[k])] + m.entries,
        m.get(k).size == m.size,
{
    if m.has_entry(k) {
        lemma_pos(m, k);
    }
}

/// Deleting a key that is not in the recency order changes nothing; deleting
/// one that is leaves every other entry in its place and order and the
/// capacity accounting as it was.
pub proof fn law_del_recency<K, V>(m: CacheModel<K, V>, k: K)
    requires
        m.wf(),
    ensures
        !m.has_entry(k) ==> m.del(k) == m,
        m.has_entry(k) ==> m.del(k).entries == m.entries.remove(m.pos(k)),
        m.has_entry(k) ==> m.del(k).entries.len() + 1 == m.entries.len(),
        m.del(k).size == m.size,
        m.del(k).cap == m.cap,
{
    if m.has_entry(k) {
        lemma_pos(m, k);
    }
}

/// A cache of capacity zero stays empty.
pub proof fn law_zero_capacity<K, V>(m: CacheModel<K, V>, k: K, v: V)
    requires
        m.wf(),
        m.cap == 0,
    ensures
        m.entries.len() == 0,
        m.set(k, v) == m,
{
    assert(m.parked.len() == 0);
    assert(m.parked.dom() =~= Set::<K>::empty());
}

/// `v` lists the cached entries in recency order, most recently used first:
/// each key as it is and a clone of each value.
pub open spec fn is_export_of<K, V: Clone>(m: CacheModel<K, V>, v: Seq<(K, V)>) -> bool {
    &&& v.len() == m.entries.len()
    &&& forall|i: int|
        0 <= i < v.len() ==> (#[trigger] v[i]).0 == m.entries[i].0 && cloned(
            m.entries[i].1,
            v[i].1,
        )
}

/// Exporting a cache twice gives equal entries, where cloning a value gives
/// back the same value; the export changes nothing in the cache.
pub proof fn law_export_repeatable<K, V: Clone>(
    m: CacheModel<K, V>,
    v1: Seq<(K, V)>,
    v2: Seq<(K, V)>,
)
    requires
        clones_exactly::<V>(),
        is_export_of(m, v1),
        is_export_of(m, v2),
    ensures
        v1 == v2,
        v1 == m.entries,
{
    assert forall|i: int| 0 <= i < v1.len() implies v1[i] == m.entries[i] && v2[i] == m.entries[i] by {
        assert(cloned(m.entries[i].1, v1[i].1));
        assert(cloned(m.entries[i].1, v2[i].1));
    }
    assert(v1 =~= m.entries);
    assert(v2 =~= m.entries);
}

/// After a read or write of `k`, every key other than `k` maps to what it
/// did: `m2`'s keys are `k` followed by `m`'s other keys in order.
proof fn lemma_lookup_moved<K, V>(m: CacheModel<K, V>, m2: CacheModel<K, V>, k: K, q: K)
    requires
        m.wf(),
        m2.wf(),
        m.lookup(k) is Some,
        m2 == m.get(k),
    ensures
        m2.entries[0] == (k, m.lookup(k)->0),
        m2.lookup(q) == m.lookup(q),
        m2.entries.len() == m.entries.len() + (if m.has_entry(k) {
            0int
        } else {
            1int
        }),
{
    let keys = m.keys();
    let keys2 = m2.keys();
    if m.has_entry(k) {
        lemma_pos(m, k);
        let i = m.pos(k);
        assert(keys2 =~= seq![k] + keys.remove(i));
        if q == k {
            assert(m2.keys()[0] == k);
            let p = m2.pos(k);
            assert(p == 0) by {
                if p != 0 {
                    assert(keys2[p] == keys2[0]);
                }
            }
        } else {
            lemma_lookup_same_except(m, m2, q, |x: int| if x == 0 { i } else if x - 1 < i { x - 1 } else { x }, |y: int| if y < i { y + 1 } else { y }, i);
        }
    } else {
        assert(keys2 =~= seq![k] + keys);
        if q == k {
            assert(m2.keys()[0] == k);
            let p = m2.pos(k);
            assert(p == 0) by {
                if p != 0 {
                    assert(keys2[p] == keys2[0]);
                }
            }
        } else {
            lemma_lookup_same_except(m, m2, q, |x: int| x - 1, |y: int| y + 1, -1);
        }
    }
}

/// `q` keeps its value from `m` to `m2` when every entry of `m2` but the
/// first is the entry of `m` at `src(x)`, the entry of `m` at `gone` left,
/// the first entry of `m2` is not `q`'s, and the parked entries agree on `q`.
proof fn lemma_lookup_same_except<K, V>(
    m: CacheModel<K, V>,
    m2: CacheModel<K, V>,
    q: K,
    src: spec_fn(int) -> int,
    dst: spec_fn(int) -> int,
    gone: int,
)
    requires
        m.wf(),
        m2.wf(),
        m2.entries.len() > 0,
        m2.entries[0].0 != q,
        forall|x: int|
            1 <= x < m2.entries.len() ==> 0 <= #[trigger] src(x) < m.entries.len() && src(x) != gone
                && m2.entries[x] == m.entries[src(x)],
        forall|y: int|
            0 <= y < m.entries.len() && y != gone && m.entries[y].0 != m2.entries[0].0 ==> 1 <= #[trigger] dst(y)
                < m2.entries.len() && src(dst(y)) == y,
        0 <= gone < m.entries.len() ==> m.entries[gone].0 != q,
        m2.parked.contains_key(q) == m.parked.contains_key(q),
        m2.parked.contains_key(q) ==> m2.parked[q] == m.parked[q],
    ensures
        m2.lookup(q) == m.lookup(q),
{
    if m.has_entry(q) {
        lemma_pos(m, q);
        let y = m.pos(q);
        let x = dst(y);
        assert(m2.keys()[x] == q);
        assert(m2.has_entry(q));
        let p = m2.pos(q);
        assert(p == x) by {
            if p != x {
                assert(m2.keys()[p] == m2.keys()[x]);
            }
        }
    }
    if m2.has_entry(q) {
        lemma_pos(m2, q);
        let p = m2.pos(q);
        assert(p != 0);
        assert(m.keys()[src(p)] == q);
        assert(m.has_entry(q));
    }
}

/// A least-recently-used cache of at most `cap` entries.
pub struct LRU<Key, Val> {
    cap: usize,
    siz: usize,
    index: HashMap<Key, Handle>,
    order: List<(Key, Val)>,
}

impl<K, V> LRU<K, V> {
    /// The node that the index names for each key.
    spec fn index_refs(&self) -> Map<K, NodeRef> {
        self.index@.map_values(|h: Handle| h@)
    }

    /// The entries that `del` took out of the recency order.
    spec fn parked_of(index: Map<K, NodeRef>, lm: ListModel<(K, V)>) -> Map<K, V> {
        Map::new(
            |k: K| index.contains_key(k) && !lm.refs.contains(index[k]),
            |k: K| lm.store[index[k]].1,
        )
    }

    pub closed spec fn model(&self) -> CacheModel<K, V> {
        let lm = self.order.model();
        CacheModel {
            cap: self.cap,
            size: self.siz as nat,
            entries: lm.values(),
            parked: Self::parked_of(self.index_refs(), lm),
            tail_lost: lm.tail_lost,
        }
    }

    /// The index and the list's nodes correspond one to one.
    spec fn index_wf(index: Map<K, NodeRef>, lm: ListModel<(K, V)>) -> bool {
        &&& forall|k: K|
            #[trigger] index.contains_key(k) ==> lm.store.contains_key(index[k]) && lm.store[index[k]].0
                == k
        &&& forall|r: NodeRef|
            #[trigger] lm.store.contains_key(r) ==> index.contains_key(lm.store[r].0) && index[lm.store[r].0]
                == r
    }

    /// The cache's internal invariant.
    pub closed spec fn wf(&self) -> bool
        where K: Clone
    {
        &&& vstd::std_specs::hash::obeys_key_model::<K>()
        &&& clones_exactly::<K>()
        &&& self.order.wf()
        &&& Self::index_wf(self.index_refs(), self.order.model())
        &&& self.model().wf()
    }
}

impl<K: Clone, V> LRU<K, V> {
    /// The model of a well-formed cache is well formed: the laws on
    /// [`CacheModel`] apply to every cache.
    pub proof fn lemma_model_wf(&self)
        requires
            self.wf(),
        ensures
            self.model().wf(),
    {
    }

    /// Where the index sends `k`, and what that says of the model.
    proof fn lemma_locate(&self, k: K)
        requires
            self.wf(),
        ensures
            self.index_refs().contains_key(k) <==> self.model().indexed(k),
            self.index_refs().contains_key(k) ==> ({
                let r = self.index_refs()[k];
                let lm = self.order.model();
                &&& lm.store.contains_key(r)
                &&& lm.store[r].0 == k
                &&& lm.refs.contains(r) <==> self.model().has_entry(k)
                &&& lm.refs.contains(r) ==> 0 <= self.model().pos(k) < lm.refs.len() && lm.refs[self.model().pos(k)] == r
                &&& !lm.refs.contains(r) ==> self.model().parked[k] == lm.store[r].1
            }),
    {
        let lm = self.order.model();
        let m = self.model();
        self.order.lemma_model_wf();
        if m.has_entry(k) {
            let j = m.pos(k);
            assert(m.keys()[j] == k);
            assert(lm.store.contains_key(lm.refs[j]));
            assert(lm.store[lm.refs[j]].0 == k);
            assert(self.index_refs().contains_key(k));
            assert(self.index_refs()[k] == lm.refs[j]);
        }
        if self.index_refs().contains_key(k) {
            let r = self.index_refs()[k];
            if lm.refs.contains(r) {
                let j = lm.refs.index_of(r);
                assert(m.entries[j] == lm.store[r]);
                assert(m.keys()[j] == k);
                assert(m.has_entry(k));
                let p = m.pos(k);
                assert(m.keys()[p] == k);
                assert(p == j) by {
                    if p != j {
                        assert(m.keys()[p] == m.keys()[j]);
                    }
                }
            }
        }
    }
}

impl<K: Hash + Eq + Clone, V: Clone> LRU<K, V> {
    /// An empty cache that keeps at most `cap` entries. The key type's
    /// `Hash` and `Eq` must agree with one another and its `clone` must give
    /// back an equal key.
    pub fn new(cap: usize) -> (c: Self)
        requires
            vstd::std_specs::hash::obeys_key_model::<K>(),
            clones_exactly::<K>(),
        ensures
            c.wf(),
            c.model() == CacheModel::<K, V>::empty(cap),
    {
        let c = LRU { cap, siz: 0, index: HashMap::new(), order: List::new() };
        proof {
            assert(Self::parked_of(c.index_refs(), c.order.model()) =~= Map::<K, V>::empty());
            assert(c.order.model().values() =~= Seq::<(K, V)>::empty());
        }
        c
    }

    /// Returns a clone of the value stored under `key`, if any, and makes
    /// `key` the most recently used entry.
    pub fn get(&mut self, key: &K) -> (x: Option<V>)
        requires
            old(self).wf(),
        ensures
            final(self).wf(),
            final(self).model() == old(self).model().get(*key),
            match old(self).model().lookup(*key) {
                None => x is None,
                Some(v) => x is Some && cloned(v, x->0),
            },
    {
        proof {
            self.lemma_locate(*key);
            lemma_get_wf(self.model(), *key);
        }
        match self.index.get(key) {
            None => None,
            Some(h) => {
                let ghost r = h@;
                let ghost lm = self.order.model();
                let ghost m = self.model();
                proof {
                    self.order.lemma_model_wf();
                    if lm.refs.contains(r) {
                        lemma_values_move_linked(lm, m.pos(*key));
                    } else {
                        lemma_values_move_unlinked(lm, r);
                    }
                }
                self.order.move_to_front(h);
                let d = self.order.get(h).unwrap();
                let v = d.1.clone();
                proof {
                    let lm2 = self.order.model();
                    assert(lm2.store == lm.store);
                    lemma_move_to_front_members(lm, r);
                    assert forall|q: K| self.index_refs().contains_key(q) && self.index_refs()[q] == r implies q == *key by {
                        assert(lm.store[self.index_refs()[q]].0 == q);
                    }
                    assert(self.model().parked =~= m.get(*key).parked);
                    assert(self.model().entries =~= m.get(*key).entries);
                }
                Some(v)
            },
        }
    }

    /// Stores `val` under `key` and makes `key` the most recently used
    /// entry. A new key in a full cache first evicts the least recently used
    /// entry; a cache of capacity zero stores nothing.
    pub fn set(&mut self, key: K, val: V)
        requires
            old(self).wf(),
            old(self).model().can_set(key),
        ensures
            final(self).wf(),
            final(self).model() == old(self).model().set(key, val),
    {
        proof {
            self.lemma_locate(key);
            lemma_set_wf(self.model(), key, val);
            self.order.lemma_model_wf();
        }
        let ghost m = self.model();
        let ghost lm = self.order.model();
        let ghost k = key;
        match self.index.get(&key) {
            Some(h) => {
                let ghost r = h@;
                proof {
                    if lm.refs.contains(r) {
                        lemma_values_move_linked(lm, m.pos(k));
                    } else {
                        lemma_values_move_unlinked(lm, r);
                    }
                    lemma_values_set_first(lm.move_to_front(r), (k, val));
                }
                self.order.move_to_front(h);
                self.order.set(h, (key, val));
                proof {
                    let lm2 = self.order.model();
                    assert(lm2.store == lm.store.insert(r, (k, val)));
                    lemma_move_to_front_members(lm, r);
                    assert forall|q: K| self.index_refs().contains_key(q) && self.index_refs()[q] == r implies q == k by {
                        assert(lm.store[self.index_refs()[q]].0 == q);
                    }
                    assert(self.model().parked =~= m.set(k, val).parked);
                    if lm.refs.contains(r) {
                        let i = m.pos(k);
                        assert(self.model().entries =~= seq![(k, val)] + m.entries.remove(i));
                    } else {
                        assert(self.model().entries =~= seq![(k, val)] + m.entries);
                    }
                    assert forall|q: K| #[trigger] self.index_refs().contains_key(q) implies lm2.store.contains_key(self.index_refs()[q])
                        && lm2.store[self.index_refs()[q]].0 == q by {}
                    assert forall|q: NodeRef| #[trigger] lm2.store.contains_key(q) implies self.index_refs().contains_key(lm2.store[q].0)
                        && self.index_refs()[lm2.store[q].0] == q by {
                        if q != r {
                            assert(lm.store.contains_key(q));
                        }
                    }
                }
            },
            None => {
                if self.cap == 0 {
                    return;
                }
                if self.siz == self.cap {
                    // Evict the least recently used entry.
                    let ghost t = lm.refs.last();
                    let ghost tk = lm.store[t].0;
                    proof {
                        assert(lm.refs.contains(t)) by {
                            assert(lm.refs[lm.refs.len() - 1] == t);
                        }
                        lemma_values_pop_back(lm);
                        assert(lm.values().last() == lm.store[t]);
                    }
                    let ghost refs0 = self.index_refs();
                    let (key_to_evict, _) = self.order.pop_back_free().unwrap();
                    self.index.remove(&key_to_evict);
                    self.siz = self.siz - 1;
                    proof {
                        assert(self.index_refs() =~= refs0.remove(tk));
                        let lm2 = self.order.model();
                        let n = lm.refs.len() as int;
                        assert(lm.pop_back().refs == lm.refs.drop_last());
                        assert(!lm.refs.drop_last().contains(t)) by {
                            if lm.refs.drop_last().contains(t) {
                                let x = choose|x: int| 0 <= x < n - 1 && lm.refs.drop_last()[x] == t;
                                assert(lm.refs[x] == lm.refs[n - 1]);
                            }
                        }
                        assert(lm2.store == lm.store.remove(t));
                        assert(lm2.refs == lm.refs.drop_last());
                        assert(self.index_refs() == old(self).index_refs().remove(tk));
                        assert(old(self).index_refs()[tk] == t);
                        assert forall|q: K| #[trigger] self.index_refs().contains_key(q) implies lm2.store.contains_key(self.index_refs()[q])
                            && lm2.store[self.index_refs()[q]].0 == q && self.index_refs()[q] != t by {
                            assert(old(self).index_refs().contains_key(q));
                        }
                        assert forall|q: NodeRef| #[trigger] lm2.store.contains_key(q) implies self.index_refs().contains_key(lm2.store[q].0)
                            && self.index_refs()[lm2.store[q].0] == q by {
                            assert(lm.store.contains_key(q));
                            assert(lm.store[q].0 != tk);
                        }
                        assert forall|q: K| self.index_refs().contains_key(q) implies (#[trigger] lm2.refs.contains(self.index_refs()[q])
                            <==> lm.refs.contains(self.index_refs()[q])) by {
                            let rq = self.index_refs()[q];
                            if lm.refs.contains(rq) {
                                let y = choose|y: int| 0 <= y < n && lm.refs[y] == rq;
                                assert(y != n - 1);
                                assert(lm2.refs[y] == rq);
                            }
                        }
                        assert(Self::parked_of(self.index_refs(), lm2) =~= m.parked);
                    }
                }
                let ghost m1 = self.model();
                let ghost lm1 = self.order.model();
                let ghost refs1 = self.index_refs();
                let kc = key.clone();
                assert(cloned(key, kc));
                assert(kc == key);
                let h = self.order.push_front((kc, val));
                let ghost r = h@;
                proof {
                    lemma_values_push_front(lm1, r, (k, val));
                }
                self.index.insert(key, h);
                self.siz = self.siz + 1;
                proof {
                    let lm2 = self.order.model();
                    assert(self.index_refs() =~= refs1.insert(k, r));
                    assert(!self.index_refs().remove(k).contains_key(k));
                    assert(!old(self).index_refs().contains_key(k));
                    assert forall|q: K| #[trigger] self.index_refs().contains_key(q) implies lm2.store.contains_key(self.index_refs()[q])
                        && lm2.store[self.index_refs()[q]].0 == q by {}
                    assert forall|q: NodeRef| #[trigger] lm2.store.contains_key(q) implies self.index_refs().contains_key(lm2.store[q].0)
                        && self.index_refs()[lm2.store[q].0] == q by {
                        if q != r {
                            assert(lm1.store.contains_key(q));
                        }
                    }
                    assert forall|q: K| self.index_refs().contains_key(q) && q != k implies (#[trigger] lm2.refs.contains(self.index_refs()[q])
                        <==> lm1.refs.contains(self.index_refs()[q])) by {
                        let rq = self.index_refs()[q];
                        assert(rq != r);
                        if lm1.refs.contains(rq) {
                            let y = choose|y: int| 0 <= y < lm1.refs.len() && lm1.refs[y] == rq;
                            assert(lm2.refs[y + 1] == rq);
                        }
                        if lm2.refs.contains(rq) {
                            let x = choose|x: int| 0 <= x < lm2.refs.len() && lm2.refs[x] == rq;
                            assert(x > 0);
                            assert(lm1.refs[x - 1] == rq);
                        }
                    }
                    assert(lm2.refs[0] == r);
                    assert(Self::parked_of(self.index_refs(), lm2) =~= m.parked);
                    if m.size == m.cap {
                        assert(self.model().entries =~= seq![(k, val)] + m.entries.drop_last());
                    } else {
                        assert(self.model().entries =~= seq![(k, val)] + m.entries);
                    }
                }
            },
        }
    }

    /// Takes `key` out of the recency order. The index keeps the key and its
    /// entry still counts against the capacity: a later `get` or `set` of
    /// the key puts the entry back in front.
    pub fn del(&mut self, key: &K)
        requires
            old(self).wf(),
        ensures
            final(self).wf(),
            final(self).model() == old(self).model().del(*key),
    {
        proof {
            self.lemma_locate(*key);
            lemma_del_wf(self.model(), *key);
            self.order.lemma_model_wf();
        }
        let ghost m = self.model();
        let ghost lm = self.order.model();
        let ghost k = *key;
        if let Some(h) = self.index.get(key) {
            let ghost r = h@;
            proof {
                if lm.refs.contains(r) {
                    lemma_values_move_linked(lm, m.pos(k));
                } else {
                    lemma_values_move_unlinked(lm, r);
                }
                lemma_values_detach_front(lm.move_to_front(r));
            }
            self.order.move_to_front(h);
            self.order.detach_front();
            proof {
                let lm2 = self.order.model();
                assert(lm2.store == lm.store);
                if lm.refs.contains(r) {
                    let i = m.pos(k);
                    assert(lm2.refs =~= lm.refs.remove(i));
                    assert(self.model().entries =~= m.entries.remove(i));
                    assert forall|q: K| self.index_refs().contains_key(q) implies (#[trigger] lm2.refs.contains(self.index_refs()[q])
                        <==> (lm.refs.contains(self.index_refs()[q]) && self.index_refs()[q] != r)) by {
                        let rq = self.index_refs()[q];
                        if lm2.refs.contains(rq) {
                            let x = choose|x: int| 0 <= x < lm2.refs.len() && lm2.refs[x] == rq;
                            let jx = if x < i { x } else { x + 1 };
                            assert(lm.refs[jx] == rq);
                            assert(jx != i);
                        }
                        if lm.refs.contains(rq) && rq != r {
                            let y = choose|y: int| 0 <= y < lm.refs.len() && lm.refs[y] == rq;
                            assert(y != i);
                            let x = if y < i { y } else { y - 1 };
                            assert(lm2.refs[x] == rq);
                        }
                    }
                    assert forall|q: K| self.index_refs().contains_key(q) && self.index_refs()[q] == r implies q == k by {
                        assert(lm.store[self.index_refs()[q]].0 == q);
                    }
                    assert(self.model().parked =~= m.del(k).parked);
                } else {
                    assert(lm2.refs =~= lm.refs);
                    assert(self.model().entries =~= m.entries);
                    assert(self.model().parked =~= m.parked);
                }
            }
        }
    }

    /// Clones of the entries in recency order, most recently used first.
    pub fn export(&self) -> (v: Vec<(K, V)>)
        requires
            self.wf(),
        ensures
            is_export_of(self.model(), v@),
    {
        let hs = self.order.handles();
        let ghost lm = self.order.model();
        proof {
            self.order.lemma_model_wf();
        }
        let mut out: Vec<(K, V)> = Vec::new();
        let mut i: usize = 0;
        while i < hs.len()
            invariant
                self.wf(),
                lm == self.order.model(),
                lm.wf(),
                hs@.len() == lm.refs.len(),
                forall|k: int| 0 <= k < hs@.len() ==> (#[trigger] hs@[k])@ == lm.refs[k],
                0 <= i <= hs@.len(),
                out@.len() == i,
                forall|j: int|
                    0 <= j < i ==> (#[trigger] out@[j]).0 == lm.values()[j].0 && cloned(
                        lm.values()[j].1,
                        out@[j].1,
                    ),
            decreases hs@.len() - i,
        {
            assert(hs@[i as int]@ == lm.refs[i as int]);
            assert(lm.store.contains_key(lm.refs[i as int]));
            let d = self.order.get(&hs[i]).unwrap();
            let kc = d.0.clone();
            let vc = d.1.clone();
            assert(cloned(d.0, kc));
            let ghost before = out@;
            out.push((kc, vc));
            proof {
                assert(lm.values()[i as int] == *d);
                assert forall|j: int|
                    0 <= j < i + 1 implies (#[trigger] out@[j]).0 == lm.values()[j].0 && cloned(
                    lm.values()[j].1,
                    out@[j].1,
                ) by {
                    if j < i {
                        assert(out@[j] == before[j]);
                    }
                }
            }
            i = i + 1;
        }
        out
    }


}

} // verus!
