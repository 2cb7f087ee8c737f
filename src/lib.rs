pub mod cache;
pub mod concurrent_cache;
pub mod key;
pub mod queued_cache;
pub mod timed_cache;
pub mod workload;
