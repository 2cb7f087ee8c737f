use std::collections::{HashMap, VecDeque};
use std::hash::Hash;
use vstd::prelude::*;

use crate::cache::{
    admit_order, key_laws, lemma_admit_props, lemma_without_absent, lemma_without_at,
    lemma_without_props, refreshed, without, Cache, GetKey, KeyRegistry,
};

use crate::concurrent_cache::ConcurrentCache;
use crate::key::KeyExtension;

verus! {

broadcast use vstd::std_specs::vecdeque::group_vec_dequeue_axioms;

/// The raw keys of a sequence of key wrappers.
pub open spec fn raw_keys<K, KeyExt: KeyExtension<K>>(s: Seq<KeyExt>) -> Seq<K> {
    s.map_values(|kw: KeyExt| kw.key_view())
}

/// Eviction policy whose lookups scan the ordered keys: O(n) to find a key.
pub struct QueuedRegistry<KeyExt, K> where KeyExt: KeyExtension<K> {
    /// keys ordered by insertion: earliest in front, latest in back
    ordered_keys: VecDeque<KeyExt>,
    max_capacity: usize,
    _phantom_data: std::marker::PhantomData<K>,
}

impl<KeyExt, K> QueuedRegistry<KeyExt, K> where KeyExt: KeyExtension<K>, K: Eq + Hash + Copy {
    /// Position of the wrapper whose raw key is `key`, by a linear scan.
    fn position(&self, key: &K) -> (r: Option<usize>)
        requires
            key_laws::<K>(),
        ensures
            match r {
                Some(i) => i < self.ordered_keys@.len() && raw_keys(self.ordered_keys@)[i as int]
                    == *key,
                None => !raw_keys(self.ordered_keys@).contains(*key),
            },
    {
        proof {
            reveal(vstd::laws_eq::obeys_concrete_eq);
        }
        let n = self.ordered_keys.len();
        let mut idx: usize = 0;
        while idx < n
            invariant
                key_laws::<K>(),
                n == self.ordered_keys@.len(),
                idx <= n,
                forall|j: int| 0 <= j < idx ==> raw_keys(self.ordered_keys@)[j] != *key,
            decreases n - idx,
        {
            proof {
                reveal(vstd::laws_eq::obeys_concrete_eq);
            }
            if *self.ordered_keys[idx].key() == *key {
                return Some(idx);
            }
            idx = idx + 1;
        }
        None
    }
}

impl<KeyExt, K> GetKey<K> for QueuedRegistry<KeyExt, K> where
    KeyExt: KeyExtension<K>,
    K: Eq + Hash + Copy,
 {
    /// Takes O(n) for finding the key.
    fn get(&self, key: &K) -> (r: Option<&K>) {
        match self.position(key) {
            Some(i) => Some(self.ordered_keys[i].key()),
            None => None,
        }
    }
}

impl<KeyExt, K> KeyRegistry<K> for QueuedRegistry<KeyExt, K> where
    KeyExt: KeyExtension<K>,
    K: Eq + Hash + Copy,
 {
    type KeyExtension = KeyExt;

    closed spec fn keys(&self) -> Seq<K> {
        raw_keys(self.ordered_keys@)
    }

    closed spec fn capacity(&self) -> nat {
        self.max_capacity as nat
    }

    closed spec fn wf(&self) -> bool {
        &&& key_laws::<K>()
        &&& self.keys().no_duplicates()
        &&& self.keys().len() <= self.max_capacity
    }

    fn with_capacity(max_capacity: usize) -> (r: Self) {
        let r = Self {
            ordered_keys: VecDeque::new(),
            max_capacity,
            _phantom_data: std::marker::PhantomData::<K>,
        };
        assert(r.keys() =~= Seq::<K>::empty());
        r
    }

    fn clear(&mut self) {
        self.ordered_keys.clear();
        assert(self.keys() =~= Seq::<K>::empty());
    }

    fn len(&self) -> (r: usize) {
        self.ordered_keys.len()
    }

    fn add_or_update(&mut self, key: KeyExt) -> (r: Option<K>) {
        let ghost s = self.keys();
        let ghost k = key.key_view();
        proof {
            lemma_admit_props(s, k, self.max_capacity as nat);
        }
        self.try_remove(key.key());
        self.ordered_keys.push_back(key);
        assert(self.keys() =~= refreshed(s, k));
        if self.ordered_keys.len() > self.max_capacity {
            let deleted_key = self.ordered_keys.pop_front();
            assert(self.keys() =~= admit_order(s, k, self.max_capacity as nat));
            match deleted_key {
                Some(tk) => Some(*tk.key()),
                None => None,
            }
        } else {
            None
        }
    }

    fn try_remove(&mut self, key: &K) -> (r: Option<K>) {
        match self.position(key) {
            Some(idx) => {
                let ghost before = self.ordered_keys@;
                proof {
                    lemma_without_at(raw_keys(before), idx as int);
                    lemma_without_props(raw_keys(before), *key);
                }
                self.ordered_keys.remove(idx);
                assert(self.keys() =~= raw_keys(before).remove(idx as int));
                Some(*key)
            },
            None => {
                proof {
                    lemma_without_absent(self.keys(), *key);
                }
                None
            },
        }
    }
}

pub type QueuedCache<K, KeyExt, V> = Cache<K, QueuedRegistry<KeyExt, K>, KeyExt, V>;

pub type ConcurrentQueuedCache<K, KeyExt, V> = ConcurrentCache<K, QueuedRegistry<KeyExt, K>, KeyExt, V>;


} // verus!

verus! {

/// Every key of `m` is tracked in `s` and is recorded at the position that
/// holds it, and every tracked key has an entry.
pub open spec fn positions_match<K>(m: Map<K, usize>, s: Seq<K>) -> bool {
    &&& forall|k: K| #[trigger] m.contains_key(k) <==> s.contains(k)
    &&& forall|k: K| #[trigger]
        m.contains_key(k) ==> m[k] < s.len() && s[m[k] as int] == k
}

/// Eviction policy with a position index beside the ordered keys: O(1) to
/// find a key, O(n) to re-index after a removal.
pub struct QueuedLookupRegistry<KeyExt, K> where KeyExt: KeyExtension<K> {
    key_idx_map: HashMap<K, usize>,
    /// keys ordered by insertion: earliest in front, latest in back
    ordered_keys: VecDeque<KeyExt>,
    max_capacity: usize,
    _phantom_data: std::marker::PhantomData<K>,
}

impl<KeyExt, K> QueuedLookupRegistry<KeyExt, K> where KeyExt: KeyExtension<K>, K: Eq + Hash + Copy {
    /// The recorded position of each tracked raw key.
    pub closed spec fn positions(&self) -> Map<K, usize> {
        self.key_idx_map@
    }

    /// Rebuilds the index from the ordered keys.
    fn update_indices(&mut self)
        requires
            key_laws::<K>(),
            raw_keys(old(self).ordered_keys@).no_duplicates(),
        ensures
            final(self).ordered_keys@ == old(self).ordered_keys@,
            final(self).max_capacity == old(self).max_capacity,
            positions_match(final(self).key_idx_map@, raw_keys(final(self).ordered_keys@)),
    {
        let ghost s = raw_keys(self.ordered_keys@);
        let n = self.ordered_keys.len();
        let mut key_idx_map_updated: HashMap<K, usize> = HashMap::with_capacity(n);
        let mut i: usize = 0;
        while i < n
            invariant
                key_laws::<K>(),
                s == raw_keys(self.ordered_keys@),
                s.no_duplicates(),
                n == s.len(),
                i <= n,
                forall|k: K| #[trigger]
                    key_idx_map_updated@.contains_key(k) <==> s.subrange(0, i as int).contains(k),
                forall|k: K| #[trigger]
                    key_idx_map_updated@.contains_key(k) ==> key_idx_map_updated@[k] < i
                        && s[key_idx_map_updated@[k] as int] == k,
            decreases n - i,
        {
            let k: K = *self.ordered_keys[i].key();
            key_idx_map_updated.insert(k, i);
            proof {
                let pre = s.subrange(0, i as int);
                let post = s.subrange(0, i + 1);
                assert(post =~= pre.push(k));
                assert forall|x: K| #[trigger] post.contains(x) <==> (pre.contains(x) || x == k) by {
                    if post.contains(x) && x != k {
                        let j = choose|j: int| 0 <= j < post.len() && #[trigger] post[j] == x;
                        assert(pre[j] == x);
                    }
                    if pre.contains(x) {
                        let j = choose|j: int| 0 <= j < pre.len() && #[trigger] pre[j] == x;
                        assert(post[j] == x);
                    }
                    if x == k {
                        assert(post[i as int] == x);
                    }
                }
            }
            i = i + 1;
        }
        assert(s.subrange(0, n as int) =~= s);
        self.key_idx_map = key_idx_map_updated;
    }

    /// Lowers every recorded position by `shift`, after `shift` keys left
    /// the front of the order.
    fn update_indices_with_shift(&mut self, shift: usize)
        requires
            key_laws::<K>(),
            raw_keys(old(self).ordered_keys@).no_duplicates(),
            forall|k: K| #[trigger]
                old(self).key_idx_map@.contains_key(k) <==> raw_keys(
                    old(self).ordered_keys@,
                ).contains(k),
            forall|j: int|
                0 <= j < old(self).ordered_keys@.len() ==> #[trigger] old(self).key_idx_map@[raw_keys(
                    old(self).ordered_keys@,
                )[j]] == j + shift,
        ensures
            final(self).ordered_keys@ == old(self).ordered_keys@,
            final(self).max_capacity == old(self).max_capacity,
            positions_match(final(self).key_idx_map@, raw_keys(final(self).ordered_keys@)),
    {
        let ghost s = raw_keys(self.ordered_keys@);
        let n = self.ordered_keys.len();
        let mut i: usize = 0;
        while i < n
            invariant
                key_laws::<K>(),
                s == raw_keys(self.ordered_keys@),
                s.no_duplicates(),
                n == s.len(),
                i <= n,
                forall|k: K| #[trigger] self.key_idx_map@.contains_key(k) <==> s.contains(k),
                forall|j: int| 0 <= j < i ==> #[trigger] self.key_idx_map@[s[j]] == j,
                forall|j: int| i <= j < n ==> #[trigger] self.key_idx_map@[s[j]] == j + shift,
                self.ordered_keys@ == old(self).ordered_keys@,
                self.max_capacity == old(self).max_capacity,
            decreases n - i,
        {
            let k: K = *self.ordered_keys[i].key();
            proof {
                assert(s[i as int] == k);
                assert(self.key_idx_map@.contains_key(k));
            }
            let idx: usize = match self.key_idx_map.get(&k) {
                Some(idx) => *idx,
                None => 0,
            };
            assert(idx == i + shift);
            let ghost before = self.key_idx_map@;
            self.key_idx_map.insert(k, idx - shift);
            proof {
                assert forall|j: int| 0 <= j < n && j != i implies s[j] != k by {
                    assert(s[i as int] == k);
                }
                assert forall|j: int| 0 <= j < i + 1 implies #[trigger] self.key_idx_map@[s[j]] == j by {
                    if j != i {
                        assert(s[j] != k);
                        assert(before[s[j]] == j);
                    }
                }
                assert forall|j: int| i + 1 <= j < n implies #[trigger] self.key_idx_map@[s[j]] == j
                    + shift by {
                    assert(s[j] != k);
                    assert(before[s[j]] == j + shift);
                }
                assert forall|x: K| #[trigger] self.key_idx_map@.contains_key(x) <==> s.contains(x) by {
                    if x == k {
                        assert(s[i as int] == k);
                    } else {
                        assert(before.contains_key(x) == self.key_idx_map@.contains_key(x));
                    }
                }
            }
            i = i + 1;
        }
        proof {
            assert forall|k: K| #[trigger]
                self.key_idx_map@.contains_key(k) implies self.key_idx_map@[k] < s.len() && s[self.key_idx_map@[k] as int]
                == k by {
                let j = choose|j: int| 0 <= j < s.len() && s[j] == k;
                assert(self.key_idx_map@[s[j]] == j);
            }
        }
    }

    /// Removes the oldest key wrapper, keeping the index in step.
    fn delete_oldest(&mut self) -> (r: Option<KeyExt>)
        requires
            key_laws::<K>(),
            raw_keys(old(self).ordered_keys@).no_duplicates(),
            positions_match(old(self).key_idx_map@, raw_keys(old(self).ordered_keys@)),
        ensures
            final(self).max_capacity == old(self).max_capacity,
            positions_match(final(self).key_idx_map@, raw_keys(final(self).ordered_keys@)),
            old(self).ordered_keys@.len() > 0 ==> {
                &&& final(self).ordered_keys@ == old(self).ordered_keys@.drop_first()
                &&& r == Some(old(self).ordered_keys@[0])
            },
            old(self).ordered_keys@.len() == 0 ==> {
                &&& final(self).ordered_keys@ == old(self).ordered_keys@
                &&& r == None::<KeyExt>
            },
    {
        let ghost s0 = raw_keys(self.ordered_keys@);
        let first = self.ordered_keys.pop_front();
        let ghost s = raw_keys(self.ordered_keys@);
        match &first {
            Some(k) => {
                let kk: K = *k.key();
                let ghost m0 = self.key_idx_map@;
                self.key_idx_map.remove(&kk);
                proof {
                    assert(s0[0] == kk);
                    assert(s =~= s0.drop_first());
                    assert forall|j: int| 0 <= j < s.len() implies #[trigger] s[j] == s0[j + 1] by {}
                    assert forall|j: int| 0 <= j < s.len() implies s[j] != kk by {
                        assert(s0[j + 1] != s0[0]);
                    }
                    assert forall|j: int| 0 <= j < s.len() implies #[trigger] self.key_idx_map@[s[j]]
                        == j + 1 by {
                        assert(s0[j + 1] == s[j]);
                        assert(s0.contains(s[j]));
                        assert(m0.contains_key(s[j]));
                        let p = m0[s[j]];
                        assert(s0[p as int] == s0[j + 1]);
                        assert(s[j] != kk);
                    }
                    assert forall|x: K| #[trigger] self.key_idx_map@.contains_key(x) <==> s.contains(x) by {
                        if s.contains(x) {
                            let j = choose|j: int| 0 <= j < s.len() && s[j] == x;
                            assert(s0[j + 1] == x);
                        }
                        if self.key_idx_map@.contains_key(x) {
                            assert(s0.contains(x));
                            let j = choose|j: int| 0 <= j < s0.len() && s0[j] == x;
                            assert(j != 0);
                            assert(s[j - 1] == x);
                        }
                    }
                    assert(s.no_duplicates()) by {
                        assert forall|a: int, b: int| 0 <= a < b < s.len() implies s[a] != s[b] by {
                            assert(s0[a + 1] != s0[b + 1]);
                        }
                    }
                }
                self.update_indices_with_shift(1);
            },
            None => {},
        }
        first
    }

    /// Removes the wrapper of `key`, if tracked, and re-indexes.
    fn remove_key(&mut self, key: &K) -> (r: Option<KeyExt>)
        requires
            key_laws::<K>(),
            raw_keys(old(self).ordered_keys@).no_duplicates(),
            positions_match(old(self).key_idx_map@, raw_keys(old(self).ordered_keys@)),
        ensures
            final(self).max_capacity == old(self).max_capacity,
            raw_keys(final(self).ordered_keys@) == without(raw_keys(old(self).ordered_keys@), *key),
            raw_keys(final(self).ordered_keys@).no_duplicates(),
            positions_match(final(self).key_idx_map@, raw_keys(final(self).ordered_keys@)),
            match r {
                Some(kw) => raw_keys(old(self).ordered_keys@).contains(*key) && kw.key_view() == *key,
                None => !raw_keys(old(self).ordered_keys@).contains(*key),
            },
    {
        let ghost s0 = raw_keys(self.ordered_keys@);
        proof {
            lemma_without_props(s0, *key);
        }
        match self.key_idx_map.remove(key) {
            Some(idx) => {
                proof {
                    lemma_without_at(s0, idx as int);
                }
                let removed = self.ordered_keys.remove(idx);
                assert(raw_keys(self.ordered_keys@) =~= s0.remove(idx as int));
                self.update_indices();
                removed
            },
            None => {
                proof {
                    lemma_without_absent(s0, *key);
                }
                None
            },
        }
    }

    /// Appends `key` at the freshest end and records its position.
    fn insert(&mut self, key: KeyExt)
        requires
            key_laws::<K>(),
            raw_keys(old(self).ordered_keys@).no_duplicates(),
            positions_match(old(self).key_idx_map@, raw_keys(old(self).ordered_keys@)),
            !raw_keys(old(self).ordered_keys@).contains(key.key_view()),
        ensures
            final(self).max_capacity == old(self).max_capacity,
            final(self).ordered_keys@ == old(self).ordered_keys@.push(key),
            raw_keys(final(self).ordered_keys@).no_duplicates(),
            positions_match(final(self).key_idx_map@, raw_keys(final(self).ordered_keys@)),
    {
        let ghost s0 = raw_keys(self.ordered_keys@);
        let len = self.ordered_keys.len();
        let k: K = *key.key();
        self.key_idx_map.insert(k, len);
        self.ordered_keys.push_back(key);
        proof {
            let s = raw_keys(self.ordered_keys@);
            assert(s =~= s0.push(k));
            assert forall|x: K| #[trigger] s.contains(x) <==> (s0.contains(x) || x == k) by {
                if s.contains(x) && x != k {
                    let j = choose|j: int| 0 <= j < s.len() && #[trigger] s[j] == x;
                    assert(s0[j] == x);
                }
                if s0.contains(x) {
                    let j = choose|j: int| 0 <= j < s0.len() && #[trigger] s0[j] == x;
                    assert(s[j] == x);
                }
                if x == k {
                    assert(s[len as int] == x);
                }
            }
            assert(s.no_duplicates()) by {
                assert forall|a: int, b: int| 0 <= a < b < s.len() implies s[a] != s[b] by {
                    if b == len {
                        assert(s0[a] == s[a]);
                        assert(s0.contains(s[a]));
                    }
                }
            }
        }
    }
}


impl<KeyExt, K> GetKey<K> for QueuedLookupRegistry<KeyExt, K> where
    KeyExt: KeyExtension<K>,
    K: Eq + Hash + Copy,
 {
    /// Takes O(1) for finding the key. The recorded position always holds
    /// the key, which the registry's invariant guarantees.
    fn get(&self, key: &K) -> (r: Option<&K>) {
        match self.key_idx_map.get(key) {
            Some(idx) => {
                let i: usize = *idx;
                assert(self.key_idx_map@[*key] == i);
                let tk = self.ordered_keys[i].key();
                Some(tk)
            },
            None => None,
        }
    }
}

impl<KeyExt, K> KeyRegistry<K> for QueuedLookupRegistry<KeyExt, K> where
    KeyExt: KeyExtension<K>,
    K: Eq + Hash + Copy,
 {
    type KeyExtension = KeyExt;

    closed spec fn keys(&self) -> Seq<K> {
        raw_keys(self.ordered_keys@)
    }

    closed spec fn capacity(&self) -> nat {
        self.max_capacity as nat
    }

    closed spec fn wf(&self) -> bool {
        &&& key_laws::<K>()
        &&& self.keys().no_duplicates()
        &&& self.keys().len() <= self.max_capacity
        &&& positions_match(self.key_idx_map@, self.keys())
    }

    fn with_capacity(max_capacity: usize) -> (r: Self) {
        let r = Self {
            key_idx_map: HashMap::new(),
            ordered_keys: VecDeque::new(),
            max_capacity,
            _phantom_data: std::marker::PhantomData::<K>,
        };
        assert(r.keys() =~= Seq::<K>::empty());
        r
    }

    fn clear(&mut self) {
        self.key_idx_map.clear();
        self.ordered_keys.clear();
        assert(self.keys() =~= Seq::<K>::empty());
    }

    fn len(&self) -> (r: usize) {
        self.ordered_keys.len()
    }

    fn add_or_update(&mut self, key: KeyExt) -> (r: Option<K>) {
        let ghost s = self.keys();
        let ghost k = key.key_view();
        proof {
            lemma_admit_props(s, k, self.max_capacity as nat);
        }
        self.try_remove(key.key());
        self.insert(key);
        assert(self.keys() =~= refreshed(s, k));
        if self.ordered_keys.len() > self.max_capacity {
            let deleted_key = self.delete_oldest();
            assert(self.keys() =~= admit_order(s, k, self.max_capacity as nat));
            match deleted_key {
                Some(tk) => Some(*tk.key()),
                None => None,
            }
        } else {
            None
        }
    }

    fn try_remove(&mut self, key: &K) -> (r: Option<K>) {
        proof {
            lemma_without_props(self.keys(), *key);
        }
        match self.remove_key(key) {
            Some(tk) => Some(*tk.key()),
            None => None,
        }
    }
}

impl<KeyExt, K> QueuedLookupRegistry<KeyExt, K> where KeyExt: KeyExtension<K>, K: Eq + Hash + Copy {
    /// Index map correctness: in a well-formed registry, every tracked raw
    /// key has a recorded position, that position holds a wrapper of the
    /// same raw key, and the index has exactly one entry per tracked key.
    pub proof fn lemma_index_map_correct(&self)
        requires
            self.wf(),
        ensures
            forall|k: K| #[trigger]
                self.keys().contains(k) ==> self.positions().contains_key(k) && self.positions()[k]
                    < self.keys().len() && self.keys()[self.positions()[k] as int] == k,
            self.positions().dom() == self.keys().to_set(),
            self.positions().len() == self.keys().len(),
    {
        assert(self.positions().dom() =~= self.keys().to_set());
        self.keys().unique_seq_to_set();
    }
}

pub type QueuedLookupCache<K, KeyExt, V> = Cache<K, QueuedLookupRegistry<KeyExt, K>, KeyExt, V>;

pub type ConcurrentQueuedLookupCache<K, KeyExt, V> = ConcurrentCache<
    K,
    QueuedLookupRegistry<KeyExt, K>,
    KeyExt,
    V,
>;

} // verus!
