use rand::rngs::ThreadRng;
use rand::Rng;
use std::sync::Arc;
use vstd::prelude::*;

use crate::cache::{Cache, GetKey, KeyRegistry};
use crate::concurrent_cache::ConcurrentCache;
use crate::queued_cache::{QueuedCache, QueuedLookupCache};

verus! {

broadcast use vstd::laws_eq::group_laws_eq;

/// `n` copies of `s`, one after another.
pub open spec fn repeated(s: Seq<char>, n: nat) -> Seq<char>
    decreases n,
{
    if n == 0 {
        Seq::empty()
    } else {
        repeated(s, (n - 1) as nat) + s
    }
}

/// Relies on std's `str::repeat`: the string made of `n` copies of `s`.
/// It panics only when the byte length overflows, which an ASCII string
/// whose repetition stays within `isize::MAX` characters rules out.
#[verifier::external_body]
fn repeat(s: &str, n: usize) -> (r: String)
    requires
        vstd::string::is_ascii(s),
        s@.len() * n <= isize::MAX,
    ensures
        r@ == repeated(s@, n as nat),
{
    s.repeat(n)
}

#[verifier::external_type_specification]
#[verifier::external_body]
pub struct ExThreadRng(ThreadRng);

/// Relies on rand's `thread_rng`: a handle to the thread-local generator,
/// of which nothing is claimed.
pub assume_specification[ rand::thread_rng ]() -> ThreadRng;

/// Relies on rand's `Rng::gen_range`: a value drawn from `0..n`; it panics
/// on an empty range.
#[verifier::external_body]
fn gen_index(rng: &mut ThreadRng, n: usize) -> (r: usize)
    requires
        n > 0,
    ensures
        r < n,
{
    rng.gen_range(0..n)
}

/// A value of `value_len` letters `a`.
fn create_value(value_len: usize) -> (r: String)
    requires
        value_len <= isize::MAX,
    ensures
        r@ == repeated(seq!['a'], value_len as nat),
{
    let a = "a";
    proof {
        reveal_strlit("a");
    }
    assert(a@ == seq!['a']);
    repeat(a, value_len)
}

/// The keys `0..n_keys`, each paired with the same value of `value_len`
/// letters.
fn gernerate_key_values(n_keys: usize, value_len: usize) -> (r: Vec<(usize, String)>)
    requires
        value_len <= isize::MAX,
    ensures
        r@.len() == n_keys,
        forall|i: int|
            0 <= i < n_keys ==> #[trigger] r@[i].0 == i && r@[i].1@ == repeated(
                seq!['a'],
                value_len as nat,
            ),
{
    let mut key_values: Vec<(usize, String)> = Vec::new();
    let v = create_value(value_len);
    let mut idx: usize = 0;
    while idx < n_keys
        invariant
            idx <= n_keys,
            key_values@.len() == idx,
            v@ == repeated(seq!['a'], value_len as nat),
            forall|i: int|
                0 <= i < idx ==> #[trigger] key_values@[i].0 == i && key_values@[i].1@ == v@,
        decreases n_keys - idx,
    {
        key_values.push((idx, v.clone()));
        idx = idx + 1;
    }
    key_values
}

/// Inserts the keys `0..n_keys` in order, then looks up `n_keys` keys drawn
/// at random.
fn insert_and_get_seq<R>(cache: &mut Cache<usize, R, usize, String>, n_keys: usize, value_len: usize)
    where R: KeyRegistry<usize, KeyExtension = usize> + GetKey<usize>
    requires
        old(cache).wf(),
        value_len <= isize::MAX,
    ensures
        final(cache).wf(),
        final(cache).capacity() == old(cache).capacity(),
{
    let key_values = gernerate_key_values(n_keys, value_len);
    let mut i: usize = 0;
    while i < key_values.len()
        invariant
            cache.wf(),
            cache.capacity() == old(cache).capacity(),
            i <= key_values@.len(),
        decreases key_values@.len() - i,
    {
        let k: usize = key_values[i].0;
        let v: String = key_values[i].1.clone();
        cache.insert(k, v);
        i = i + 1;
    }
    let mut rng = rand::thread_rng();
    let mut j: usize = 0;
    while j < n_keys
        invariant
            cache.wf(),
            key_values@.len() == n_keys,
            j <= n_keys,
        decreases n_keys - j,
    {
        let rd_idx = gen_index(&mut rng, n_keys);
        let key: usize = key_values[rd_idx].0;
        let _ = cache.get(&key);
        j = j + 1;
    }
}

/// Inserts the keys `0..n_keys` in order into a shared cache, then looks up
/// `n_keys` keys drawn at random; several threads may run this at once.
pub fn insert_and_get_concurrent<R>(
    cache: Arc<ConcurrentCache<usize, R, usize, String>>,
    n_keys: usize,
    value_len: usize,
) where R: KeyRegistry<usize, KeyExtension = usize> + GetKey<usize>
    requires
        value_len <= isize::MAX,
{
    let key_values = gernerate_key_values(n_keys, value_len);
    let mut i: usize = 0;
    while i < key_values.len()
        invariant
            i <= key_values@.len(),
        decreases key_values@.len() - i,
    {
        let k: usize = key_values[i].0;
        let v: String = key_values[i].1.clone();
        cache.insert(k, v);
        i = i + 1;
    }
    let mut rng = rand::thread_rng();
    let mut j: usize = 0;
    while j < n_keys
        invariant
            key_values@.len() == n_keys,
            j <= n_keys,
        decreases n_keys - j,
    {
        let rd_idx = gen_index(&mut rng, n_keys);
        let key: usize = key_values[rd_idx].0;
        let _ = cache.get(&key);
        j = j + 1;
    }
}

/// Runs inserts and random lookups on a scanning cache; the cache never
/// holds more than `max_capacity` values.
pub fn queued_cache_sequential(params: (usize, usize, usize))
    requires
        params.2 <= isize::MAX,
{
    let (max_capacity, n_keys, value_len) = params;
    let mut cache = QueuedCache::<usize, usize, String>::new(Some(max_capacity));
    insert_and_get_seq(&mut cache, n_keys, value_len);
    let len = cache.len();
    proof {
        cache.lemma_wf();
    }
    assert(len <= max_capacity);
}

/// Runs inserts and random lookups on an indexed cache; the cache never
/// holds more than `max_capacity` values.
pub fn queued_lookup_cache_sequential(params: (usize, usize, usize))
    requires
        params.2 <= isize::MAX,
{
    let (max_capacity, n_keys, value_len) = params;
    let mut cache = QueuedLookupCache::<usize, usize, String>::new(Some(max_capacity));
    insert_and_get_seq(&mut cache, n_keys, value_len);
    let len = cache.len();
    proof {
        cache.lemma_wf();
    }
    assert(len <= max_capacity);
}

} // verus!
