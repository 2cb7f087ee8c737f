use std::collections::{HashMap, HashSet};
use std::hash::Hash;
use vstd::laws_eq::obeys_concrete_eq;
use vstd::prelude::*;
use vstd::std_specs::hash::obeys_key_model;

use crate::key::KeyExtension;

verus! {

/// What a raw key type must satisfy for the registries and the store:
/// executable `==` is equality, and hashing is deterministic.
pub open spec fn key_laws<K: PartialEq>() -> bool {
    obeys_concrete_eq::<K>() && obeys_key_model::<K>()
}

/// `s` with the occurrence of `k` taken out, if there is one.
pub open spec fn without<K>(s: Seq<K>, k: K) -> Seq<K> {
    if s.contains(k) {
        s.remove(s.index_of(k))
    } else {
        s
    }
}

/// The order after `k` is (re)admitted, before capacity is enforced:
/// `k` moves to the freshest end.
pub open spec fn refreshed<K>(s: Seq<K>, k: K) -> Seq<K> {
    without(s, k).push(k)
}

/// The order of tracked keys, oldest first, after admitting `k` under
/// capacity `cap`: the oldest key leaves when the order would exceed `cap`.
pub open spec fn admit_order<K>(s: Seq<K>, k: K, cap: nat) -> Seq<K> {
    let t = refreshed(s, k);
    if t.len() > cap {
        t.drop_first()
    } else {
        t
    }
}

/// The key evicted when `k` is admitted under capacity `cap`, if any.
pub open spec fn admit_evicted<K>(s: Seq<K>, k: K, cap: nat) -> Option<K> {
    let t = refreshed(s, k);
    if t.len() > cap {
        Some(t[0])
    } else {
        None
    }
}

/// The tracked order and stored values after inserting each `(key, value)`
/// of `ops` in turn, as `Cache::insert` does, under capacity `cap`.
pub open spec fn after_inserts<K, V>(order: Seq<K>, values: Map<K, V>, cap: nat, ops: Seq<(K, V)>) -> (
    Seq<K>,
    Map<K, V>,
)
    decreases ops.len(),
{
    if ops.len() == 0 {
        (order, values)
    } else {
        let (k, v) = ops[0];
        let o = admit_order(order, k, cap);
        after_inserts(o, values.insert(k, v).restrict(o.to_set()), cap, ops.drop_first())
    }
}

/// The raw keys of a sequence of `(key, value)` pairs.
pub open spec fn op_keys<K, V>(ops: Seq<(K, V)>) -> Seq<K> {
    ops.map_values(|p: (K, V)| p.0)
}

/// Inserting keys that are neither tracked nor repeated, with room for all
/// of them, evicts nothing: they are appended to the order in turn and all
/// of them, with the earlier keys, hold a value.
pub proof fn lemma_fresh_inserts_append<K, V>(
    order: Seq<K>,
    values: Map<K, V>,
    cap: nat,
    ops: Seq<(K, V)>,
)
    requires
        (order + op_keys(ops)).no_duplicates(),
        values.dom() == order.to_set(),
        order.len() + ops.len() <= cap,
    ensures
        after_inserts(order, values, cap, ops).0 == order + op_keys(ops),
        after_inserts(order, values, cap, ops).1.dom() == (order + op_keys(ops)).to_set(),
    decreases ops.len(),
{
    if ops.len() == 0 {
        assert(op_keys(ops) =~= Seq::<K>::empty());
        assert(order + op_keys(ops) =~= order);
    } else {
        let (k, v) = ops[0];
        let all = order + op_keys(ops);
        assert(all[order.len() as int] == k);
        assert(!order.contains(k)) by {
            if order.contains(k) {
                let j = choose|j: int| 0 <= j < order.len() && order[j] == k;
                assert(all[j] == all[order.len() as int]);
            }
        }
        lemma_without_absent(order, k);
        let o = order.push(k);
        assert(admit_order(order, k, cap) == o);
        let rest = ops.drop_first();
        assert(o + op_keys(rest) =~= all);
        let m = values.insert(k, v).restrict(o.to_set());
        assert forall|x: K| #[trigger] o.contains(x) <==> (order.contains(x) || x == k) by {
            if o.contains(x) && x != k {
                let j = choose|j: int| 0 <= j < o.len() && o[j] == x;
                assert(order[j] == x);
            }
            if order.contains(x) {
                let j = choose|j: int| 0 <= j < order.len() && order[j] == x;
                assert(o[j] == x);
            }
            if x == k {
                assert(o[order.len() as int] == k);
            }
        }
        assert(m.dom() =~= o.to_set());
        lemma_fresh_inserts_append(o, m, cap, rest);
    }
}

/// Distinct inserts are all kept: starting from an empty cache whose
/// capacity is at least the number of inserts, inserting distinct keys in
/// any order leaves exactly those keys tracked and retrievable. Under the
/// lock of a shared cache, concurrent inserts take effect in some such
/// order.
pub proof fn lemma_distinct_inserts_all_kept<K, V>(cap: nat, ops: Seq<(K, V)>)
    requires
        op_keys(ops).no_duplicates(),
        ops.len() <= cap,
    ensures
        after_inserts(Seq::<K>::empty(), Map::<K, V>::empty(), cap, ops).0.len() == ops.len(),
        forall|k: K|
            #[trigger] after_inserts(Seq::<K>::empty(), Map::<K, V>::empty(), cap, ops).1.contains_key(k)
                <==> op_keys(ops).contains(k),
{
    assert(Seq::<K>::empty() + op_keys(ops) =~= op_keys(ops));
    assert(Map::<K, V>::empty().dom() =~= Seq::<K>::empty().to_set());
    lemma_fresh_inserts_append(Seq::<K>::empty(), Map::<K, V>::empty(), cap, ops);
}

/// Removing the element at position `i` of a duplicate-free sequence is
/// removing that key.
pub proof fn lemma_without_at<K>(s: Seq<K>, i: int)
    requires
        s.no_duplicates(),
        0 <= i < s.len(),
    ensures
        without(s, s[i]) == s.remove(i),
{
    assert(s.contains(s[i]));
    let j = s.index_of(s[i]);
    assert(s[j] == s[i]);
}

/// Taking out a key that is not there changes nothing.
pub proof fn lemma_without_absent<K>(s: Seq<K>, k: K)
    requires
        !s.contains(k),
    ensures
        without(s, k) == s,
{
}

/// Taking a key out keeps a sequence free of duplicates, removes exactly
/// that key, and shortens it by one exactly when the key was there.
pub proof fn lemma_without_props<K>(s: Seq<K>, k: K)
    requires
        s.no_duplicates(),
    ensures
        without(s, k).no_duplicates(),
        !without(s, k).contains(k),
        forall|x: K| x != k ==> (#[trigger] without(s, k).contains(x) <==> s.contains(x)),
        without(s, k).len() == if s.contains(k) {
            s.len() - 1
        } else {
            s.len() as int
        },
{
    if s.contains(k) {
        let i = s.index_of(k);
        let r = s.remove(i);
        assert(s[i] == k);
        assert forall|a: int, b: int| 0 <= a < b < r.len() implies r[a] != r[b] by {
            let sa = if a < i { a } else { a + 1 };
            let sb = if b < i { b } else { b + 1 };
            assert(r[a] == s[sa]);
            assert(r[b] == s[sb]);
        }
        assert forall|x: K| x != k implies (#[trigger] r.contains(x) <==> s.contains(x)) by {
            if s.contains(x) {
                let j = choose|j: int| 0 <= j < s.len() && s[j] == x;
                assert(j != i);
                if j < i {
                    assert(r[j] == x);
                } else {
                    assert(r[j - 1] == x);
                }
            }
            if r.contains(x) {
                let j = choose|j: int| 0 <= j < r.len() && r[j] == x;
                if j < i {
                    assert(s[j] == x);
                } else {
                    assert(s[j + 1] == x);
                }
            }
        }
        if r.contains(k) {
            let j = choose|j: int| 0 <= j < r.len() && r[j] == k;
            if j < i {
                assert(s[j] == k);
            } else {
                assert(s[j + 1] == k);
            }
        }
    }
}

/// Admission keeps the tracked keys free of duplicates and within capacity,
/// and tracks exactly the admitted key plus the earlier keys that were not
/// evicted.
pub proof fn lemma_admit_props<K>(s: Seq<K>, k: K, cap: nat)
    requires
        s.no_duplicates(),
        s.len() <= cap,
    ensures
        admit_order(s, k, cap).no_duplicates(),
        admit_order(s, k, cap).len() <= cap,
        admit_order(s, k, cap).contains(k) <==> cap > 0,
        admit_evicted(s, k, cap) == Some(k) <==> cap == 0,
        forall|x: K|
            x != k ==> (#[trigger] admit_order(s, k, cap).contains(x) <==> (s.contains(x)
                && admit_evicted(s, k, cap) != Some(x))),
{
    lemma_without_props(s, k);
    let w = without(s, k);
    let t = refreshed(s, k);
    assert(t.no_duplicates()) by {
        assert forall|a: int, b: int| 0 <= a < b < t.len() implies t[a] != t[b] by {
            if b == t.len() - 1 {
                assert(w[a] == t[a]);
            }
        }
    }
    assert forall|x: K| #[trigger] t.contains(x) <==> (x == k || w.contains(x)) by {
        if w.contains(x) {
            let j = choose|j: int| 0 <= j < w.len() && w[j] == x;
            assert(t[j] == x);
        }
        if x == k {
            assert(t[t.len() - 1] == k);
        }
        if t.contains(x) && x != k {
            let j = choose|j: int| 0 <= j < t.len() && t[j] == x;
            assert(w[j] == x);
        }
    }
    if t.len() > cap {
        let d = t.drop_first();
        assert forall|a: int, b: int| 0 <= a < b < d.len() implies d[a] != d[b] by {
            assert(d[a] == t[a + 1]);
            assert(d[b] == t[b + 1]);
        }
        assert forall|x: K| #[trigger] d.contains(x) <==> (t.contains(x) && x != t[0]) by {
            if d.contains(x) {
                let j = choose|j: int| 0 <= j < d.len() && d[j] == x;
                assert(t[j + 1] == x);
            }
            if t.contains(x) && x != t[0] {
                let j = choose|j: int| 0 <= j < t.len() && t[j] == x;
                assert(d[j - 1] == x);
            }
        }
        if cap > 0 {
            assert(t[0] != k) by {
                assert(t[t.len() - 1] == k);
            }
        } else {
            assert(t[0] == k);
        }
    }
}

/// A policy that decides which keys are live and which one leaves when
/// capacity is exceeded. Its state is an order of raw keys, oldest first.
pub trait KeyRegistry<K: Eq + Hash + Copy>: Sized {
    type KeyExtension: KeyExtension<K>;

    /// The tracked raw keys, oldest (next to be evicted) first.
    spec fn keys(&self) -> Seq<K>;

    /// The maximum number of keys tracked at once.
    spec fn capacity(&self) -> nat;

    /// Internal consistency of the registry.
    spec fn wf(&self) -> bool;

    fn with_capacity(max_capacity: usize) -> (r: Self)
        requires
            key_laws::<K>(),
        ensures
            r.wf(),
            r.keys() == Seq::<K>::empty(),
            r.capacity() == max_capacity,
    ;

    fn init(max_capacity: Option<usize>) -> (r: Self)
        requires
            key_laws::<K>(),
        ensures
            r.wf(),
            r.keys() == Seq::<K>::empty(),
            r.capacity() == match max_capacity {
                Some(c) => c,
                None => usize::MAX,
            },
    {
        let mc = match max_capacity {
            Some(c) => c,
            None => usize::MAX,
        };
        Self::with_capacity(mc)
    }

    fn len(&self) -> (r: usize)
        requires
            self.wf(),
        ensures
            r == self.keys().len(),
    ;

    fn is_empty(&self) -> (r: bool)
        requires
            self.wf(),
        ensures
            r == (self.keys().len() == 0),
    {
        self.len() == 0
    }

    /// Drops all tracked keys.
    fn clear(&mut self)
        requires
            old(self).wf(),
        ensures
            final(self).wf(),
            final(self).keys() == Seq::<K>::empty(),
            final(self).capacity() == old(self).capacity(),
    ;

    /// Admits `key` at the freshest end, first removing an earlier
    /// occurrence of its raw key; returns the evicted raw key, if any.
    fn add_or_update(&mut self, key: Self::KeyExtension) -> (r: Option<K>)
        requires
            old(self).wf(),
        ensures
            final(self).wf(),
            final(self).capacity() == old(self).capacity(),
            final(self).keys() == admit_order(old(self).keys(), key.key_view(), old(self).capacity()),
            r == admit_evicted(old(self).keys(), key.key_view(), old(self).capacity()),
    ;

    /// Stops tracking `key`; returns it if it was tracked.
    fn try_remove(&mut self, key: &K) -> (r: Option<K>)
        requires
            old(self).wf(),
        ensures
            final(self).wf(),
            final(self).capacity() == old(self).capacity(),
            final(self).keys() == without(old(self).keys(), *key),
            r == if old(self).keys().contains(*key) {
                Some(*key)
            } else {
                None::<K>
            },
    ;
}

/// Lookup of a tracked key that leaves the eviction order as it is.
pub trait GetKey<K: Eq + Hash + Copy>: KeyRegistry<K> {
    fn get(&self, key: &K) -> (r: Option<&K>)
        requires
            self.wf(),
        ensures
            r == if self.keys().contains(*key) {
                Some(key)
            } else {
                None::<&K>
            },
    ;
}

/// Lookup of a tracked key that may also update its statistics (for
/// policies where reads affect eviction order).
pub trait GetKeyMut<K: Eq + Hash + Copy>: KeyRegistry<K> {
    fn get(&mut self, key: &K) -> (r: Option<&K>)
        requires
            old(self).wf(),
        ensures
            final(self).wf(),
            final(self).capacity() == old(self).capacity(),
            final(self).keys().to_set() == old(self).keys().to_set(),
            final(self).keys().len() == old(self).keys().len(),
            r == if old(self).keys().contains(*key) {
                Some(key)
            } else {
                None::<&K>
            },
    ;
}

pub trait HouseKeeper<K> {
    /// Makes sure keys are still valid; returns the invalidated ones.
    fn house_keeping(&mut self) -> Option<HashSet<K>>;
}

/// A bounded key-value cache: one eviction policy and one store, always
/// changed together.
#[verifier::reject_recursive_types(K)]
#[verifier::reject_recursive_types(KeyExt)]
pub struct Cache<K, KeyReg, KeyExt, V> where
    K: Eq + Hash + Copy,
    KeyReg: KeyRegistry<K, KeyExtension = KeyExt>,
 {
    store: HashMap<K, V>,
    key_registry: KeyReg,
}

impl<K, KeyReg, KeyExt, V> Cache<K, KeyReg, KeyExt, V> where
    K: Eq + Hash + Copy,
    KeyReg: KeyRegistry<K, KeyExtension = KeyExt>,
    KeyExt: KeyExtension<K>,
 {
    /// The tracked keys in eviction order, oldest first.
    pub closed spec fn order(&self) -> Seq<K> {
        self.key_registry.keys()
    }

    /// The stored values by raw key.
    pub closed spec fn values(&self) -> Map<K, V> {
        self.store@
    }

    pub closed spec fn capacity(&self) -> nat {
        self.key_registry.capacity()
    }

    /// The store holds exactly the keys the policy tracks, at most
    /// `capacity` of them, none twice.
    pub closed spec fn wf(&self) -> bool {
        &&& key_laws::<K>()
        &&& self.key_registry.wf()
        &&& self.order().no_duplicates()
        &&& self.order().len() <= self.capacity()
        &&& self.values().dom() == self.order().to_set()
    }

    /// Facts about a well-formed cache that callers can use.
    pub proof fn lemma_wf(&self)
        requires
            self.wf(),
        ensures
            key_laws::<K>(),
            self.order().no_duplicates(),
            self.order().len() <= self.capacity(),
            forall|k: K| #[trigger] self.values().contains_key(k) <==> self.order().contains(k),
            self.values().len() == self.order().len(),
    {
        self.order().unique_seq_to_set();
    }

    /// Capacity bound: a well-formed cache, which every operation keeps
    /// well-formed, never tracks or stores more keys than its capacity.
    pub proof fn lemma_capacity_bound(&self)
        requires
            self.wf(),
        ensures
            self.order().len() <= self.capacity(),
            self.values().len() <= self.capacity(),
    {
        self.lemma_wf();
    }

    /// Store and policy agree: the keys that hold a value (the keys `get`
    /// finds) are exactly the keys the eviction policy tracks.
    pub proof fn lemma_store_policy_sync(&self)
        requires
            self.wf(),
        ensures
            self.values().dom() == self.order().to_set(),
            forall|k: K| #[trigger] self.values().contains_key(k) <==> self.order().contains(k),
    {
        self.lemma_wf();
    }

    /// Clearing resets: a cleared cache and a new one of the same capacity
    /// are both empty and end in the same state after any sequence of
    /// inserts.
    pub proof fn lemma_clear_like_new(cleared: &Self, fresh: &Self, ops: Seq<(K, V)>)
        requires
            cleared.wf(),
            fresh.wf(),
            cleared.capacity() == fresh.capacity(),
            cleared.order() == Seq::<K>::empty(),
            cleared.values() == Map::<K, V>::empty(),
            fresh.order() == Seq::<K>::empty(),
            fresh.values() == Map::<K, V>::empty(),
        ensures
            cleared.values().len() == 0,
            after_inserts(cleared.order(), cleared.values(), cleared.capacity(), ops)
                == after_inserts(fresh.order(), fresh.values(), fresh.capacity(), ops),
    {
    }

    pub fn new(max_capacity: Option<usize>) -> (r: Self)
        requires
            key_laws::<K>(),
        ensures
            r.wf(),
            r.order() == Seq::<K>::empty(),
            r.values() == Map::<K, V>::empty(),
            r.capacity() == match max_capacity {
                Some(c) => c,
                None => usize::MAX,
            },
    {
        let r = Self { store: HashMap::new(), key_registry: KeyReg::init(max_capacity) };
        assert(r.values().dom() =~= r.order().to_set());
        r
    }

    /// Clears the registry and store, removing all key-value pairs.
    pub fn clear(&mut self)
        requires
            old(self).wf(),
        ensures
            final(self).wf(),
            final(self).order() == Seq::<K>::empty(),
            final(self).values() == Map::<K, V>::empty(),
            final(self).capacity() == old(self).capacity(),
    {
        self.key_registry.clear();
        self.store.clear();
        assert(self.values().dom() =~= self.order().to_set());
    }

    pub fn len(&self) -> (r: usize)
        requires
            self.wf(),
        ensures
            r == self.values().len(),
            r == self.order().len(),
            r <= self.capacity(),
    {
        proof {
            self.lemma_wf();
        }
        self.store.len()
    }

    pub fn is_empty(&self) -> (r: bool)
        requires
            self.wf(),
        ensures
            r == (self.values().len() == 0),
            r == (self.order().len() == 0),
    {
        proof {
            self.lemma_wf();
        }
        self.store.is_empty()
    }

    /// Inserts a key-value pair; returns the value previously stored at
    /// that raw key. The policy decides admission first, and the evicted
    /// key, if any, leaves the store in the same step.
    pub fn insert(&mut self, key: KeyExt, value: V) -> (r: Option<V>)
        requires
            old(self).wf(),
        ensures
            final(self).wf(),
            final(self).capacity() == old(self).capacity(),
            final(self).order() == admit_order(
                old(self).order(),
                key.key_view(),
                old(self).capacity(),
            ),
            final(self).values() == old(self).values().insert(key.key_view(), value).restrict(
                final(self).order().to_set(),
            ),
            r == if old(self).values().contains_key(key.key_view()) {
                Some(old(self).values()[key.key_view()])
            } else {
                None::<V>
            },
    {
        let ghost s = self.order();
        let ghost m = self.values();
        let ghost cap = self.capacity();
        let k: K = *key.key();
        proof {
            self.lemma_wf();
            lemma_admit_props(s, k, cap);
            reveal(obeys_concrete_eq);
        }
        let evicted = self.key_registry.add_or_update(key);
        let r = match evicted {
            Some(deleted_key) => {
                if deleted_key == k {
                    // the policy did not admit the key (zero capacity)
                    self.store.remove(&k)
                } else {
                    self.store.remove(&deleted_key);
                    self.store.insert(k, value)
                }
            },
            None => self.store.insert(k, value),
        };
        proof {
            let o = self.order();
            assert(o == admit_order(s, k, cap));
            assert forall|x: K| #[trigger] self.values().contains_key(x) <==> o.contains(x) by {
                if x != k {
                    assert(o.contains(x) <==> (s.contains(x) && evicted != Some(x)));
                    assert(m.contains_key(x) <==> s.contains(x));
                }
            }
        }
        assert(self.values() =~= m.insert(k, value).restrict(self.order().to_set()));
        assert(self.values().dom() =~= self.order().to_set());
        r
    }

    /// Removes a key from the cache, returning its value if it was there.
    pub fn remove(&mut self, key: &K) -> (r: Option<V>)
        requires
            old(self).wf(),
        ensures
            final(self).wf(),
            final(self).capacity() == old(self).capacity(),
            final(self).order() == without(old(self).order(), *key),
            final(self).values() == old(self).values().remove(*key),
            r == if old(self).values().contains_key(*key) {
                Some(old(self).values()[*key])
            } else {
                None::<V>
            },
    {
        proof {
            self.lemma_wf();
            lemma_without_props(self.order(), *key);
        }
        let ghost m = self.values();
        let r = match self.key_registry.try_remove(key) {
            Some(k) => self.store.remove(&k),
            None => None,
        };
        assert(self.values() =~= m.remove(*key));
        assert(self.values().dom() =~= self.order().to_set());
        r
    }
}

impl<K, KeyReg, KeyExt, V> Cache<K, KeyReg, KeyExt, V> where
    K: Eq + Hash + Copy,
    KeyReg: KeyRegistry<K, KeyExtension = KeyExt> + GetKey<K>,
    KeyExt: KeyExtension<K>,
 {
    /// Gets the key's value without updating its statistics.
    pub fn get(&self, key: &K) -> (r: Option<&V>)
        requires
            self.wf(),
        ensures
            r == if self.values().contains_key(*key) {
                Some(&self.values()[*key])
            } else {
                None::<&V>
            },
    {
        proof {
            self.lemma_wf();
        }
        match self.key_registry.get(key) {
            Some(k) => self.store.get(k),
            None => None,
        }
    }
}

impl<K, KeyReg, KeyExt, V> Cache<K, KeyReg, KeyExt, V> where
    K: Eq + Hash + Copy,
    KeyReg: KeyRegistry<K, KeyExtension = KeyExt> + GetKeyMut<K>,
    KeyExt: KeyExtension<K>,
 {
    /// Gets the key's value and updates its statistics.
    pub fn get_mut(&mut self, key: &K) -> (r: Option<&V>)
        requires
            old(self).wf(),
        ensures
            final(self).wf(),
            final(self).capacity() == old(self).capacity(),
            final(self).values() == old(self).values(),
            final(self).order().to_set() == old(self).order().to_set(),
            r == if old(self).values().contains_key(*key) {
                Some(&old(self).values()[*key])
            } else {
                None::<&V>
            },
    {
        proof {
            self.lemma_wf();
        }
        let ghost s = self.order();
        let found = GetKeyMut::get(&mut self.key_registry, key);
        let r = match found {
            Some(k) => self.store.get(k),
            None => None,
        };
        proof {
            s.unique_seq_to_set();
            self.order().lemma_no_dup_set_cardinality();
        }
        r
    }
}

} // verus!
