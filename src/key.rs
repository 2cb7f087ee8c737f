use std::time::Instant;
use vstd::prelude::*;

verus! {

/// A key wrapper: pairs a raw key with metadata while exposing the raw key
/// that equality and hashing go by.
pub trait KeyExtension<K> {
    /// The raw key this wrapper stands for.
    spec fn key_view(&self) -> K;

    fn key(&self) -> (r: &K)
        ensures
            *r == self.key_view(),
    ;
}

impl KeyExtension<i32> for i32 {
    open spec fn key_view(&self) -> i32 {
        *self
    }

    fn key(&self) -> (r: &i32) {
        self
    }
}

impl KeyExtension<usize> for usize {
    open spec fn key_view(&self) -> usize {
        *self
    }

    fn key(&self) -> (r: &usize) {
        self
    }
}

#[verifier::external_type_specification]
#[verifier::external_body]
pub struct ExInstant(Instant);

/// Relies on std's `Instant::now`, which reads the monotonic clock; nothing
/// is claimed of the instant it returns.
pub assume_specification[ Instant::now ]() -> Instant;

/// A raw key stamped with the instant it was created.
pub struct TimedKey<K> {
    key: K,
    instant: Instant,
}

impl<K> TimedKey<K> {
    pub fn create_now(key: K) -> (r: Self)
        ensures
            r.key_view() == key,
    {
        Self { key, instant: Instant::now() }
    }

    /// When this key was created.
    pub fn instant(&self) -> &Instant {
        &self.instant
    }
}

impl<K> KeyExtension<K> for TimedKey<K> {
    closed spec fn key_view(&self) -> K {
        self.key
    }

    fn key(&self) -> (r: &K) {
        &self.key
    }
}

} // verus!
