//! Read-through file cache invalidation core.
//!
//! Turns cache reads into filesystem watch subscriptions, classifies raw
//! change notifications into invalidation signals, and maps a changed
//! on-disk path back to the cache keys that must be invalidated.

use vstd::prelude::*;

pub mod classify;
pub mod dispatch;
pub mod laws;
pub mod mangler;
pub mod paths;
pub mod trm;
pub mod wset;

verus! {

/// Hook invoked on every cache read: implementors forward the raw,
/// caller-supplied path so that a watch subscription can be established
/// for it before the read observes the file.
pub trait FileWatcher {
    fn watch(&self, path: &paths::CacheKey);
}

} // verus!
