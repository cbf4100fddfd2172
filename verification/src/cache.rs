//! Freshness policy of the on-disk cache.
//!
//! A cache entry is a file; its modification time is the sole freshness
//! signal. The policy here decides, from the observed modification time
//! and the current time, whether the entry must be refetched. Reading
//! the file's metadata is I/O and stays outside the library; callers
//! hand in the observed times as plain seconds.

use vstd::prelude::*;

verus! {

/// A single cache entry: the path of its backing file and the time
/// bound (in seconds) after which the entry counts as stale.
pub struct Cache {
    pub path: String,
    pub cache_duration: u64,
}

impl Cache {
    /// Name of the directory that holds all cache entries.
    pub fn cache_path() -> (r: &'static str)
        ensures
            r@ == ".cache"@,
    {
        ".cache"
    }

    /// Whether an entry with the given modification time must be refetched.
    ///
    /// `modified` is the entry's modification time in seconds, or `None`
    /// when the file does not exist or its modification time cannot be
    /// read; `now` is the current time in seconds. An entry whose
    /// modification time lies in the future counts as fresh: the policy
    /// fails open toward not refetching when clocks disagree.
    pub open spec fn spec_needs_update(self, modified: Option<u64>, now: u64) -> bool {
        match modified {
            Option::None => true,
            Option::Some(m) => m <= now && now - m > self.cache_duration,
        }
    }

    /// Create the entry for one cache key; the backing file lives in the
    /// cache directory under the given name.
    pub fn new(path: &str, cache_duration: u64) -> (r: Cache)
        ensures
            r.path@ == ".cache/"@ + path@,
            r.cache_duration == cache_duration,
    {
        let mut joined = String::new();
        joined.append(".cache/");
        joined.append(path);
        Cache { path: joined, cache_duration }
    }

    /// Decide staleness from the observed modification time and the clock.
    pub fn needs_update(&self, modified: Option<u64>, now: u64) -> (r: bool)
        ensures
            r == self.spec_needs_update(modified, now),
    {
        match modified {
            Option::None => true,
            Option::Some(m) => m <= now && now - m > self.cache_duration,
        }
    }
}

} // verus!
