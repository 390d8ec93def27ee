//! Rate limiting: a fixed-window counter per key. The clock is handed in by
//! the caller, so the decision itself is a pure function of state and time.

use vstd::prelude::*;
use crate::text::str_eq;

verus! {

/// Longest accepted window, in seconds.
pub const LIMITER_MAX_WINDOW_SECS: u64 = 1000000000;

/// Configuration for rate limiters.
#[derive(Debug)]
pub struct RateLimitConfig {
    /// Maximum number of requests.
    pub max_requests: u32,
    /// Time window in seconds.
    pub window_secs: u64,
    /// Optional identifier for the limiter.
    pub identifier: Option<String>,
}

impl Default for RateLimitConfig {
    /// Sixty requests per minute.
    fn default() -> (r: Self)
        ensures
            r.max_requests == 60,
            r.window_secs == 60,
            r.identifier is None,
    {
        Self { max_requests: 60, window_secs: 60, identifier: Option::None }
    }
}

/// Rate limit check result.
#[derive(Debug)]
pub struct RateLimitResult {
    /// Whether the request should be allowed.
    pub allowed: bool,
    /// Number of remaining requests in the current window.
    pub remaining: u32,
    /// When the rate limit will reset (in seconds).
    pub reset_after: u64,
    /// Total limit for the window.
    pub limit: u32,
}

/// Common trait for all rate limiters. The wall clock is a parameter: a
/// driver backed by an outside store may consult its own, the in-memory
/// one is deterministic in it. Every implementation names its limit and
/// its per-key count, and the methods decide by them.
pub trait RateLimiter: Sized {
    spec fn wf(&self) -> bool;

    spec fn spec_max_requests(&self) -> u32;

    spec fn spec_window_secs(&self) -> u64;

    /// Requests already counted against `key` in the window open at `now`.
    spec fn spec_count(&self, key: Seq<char>, now_ms: u64) -> nat;

    /// Read-only probe: would a request for `key` be allowed now?
    fn check(&self, key: &str, now_ms: u64) -> (r: RateLimitResult)
        requires
            self.wf(),
        ensures
            r.limit == self.spec_max_requests(),
            r.allowed == (self.spec_count(key@, now_ms) < self.spec_max_requests()),
            r.remaining == self.spec_max_requests() - self.spec_count(key@, now_ms),
            r.reset_after == self.spec_window_secs();

    /// Count a request: allowed exactly while the window still has room,
    /// and a refused request is not counted.
    fn increment(&mut self, key: &str, now_ms: u64) -> (r: RateLimitResult)
        requires
            old(self).wf(),
        ensures
            final(self).wf(),
            final(self).spec_max_requests() == old(self).spec_max_requests(),
            final(self).spec_window_secs() == old(self).spec_window_secs(),
            r.limit == old(self).spec_max_requests(),
            r.reset_after == old(self).spec_window_secs(),
            r.allowed == (old(self).spec_count(key@, now_ms) < old(self).spec_max_requests()),
            r.allowed ==> final(self).spec_count(key@, now_ms) == old(self).spec_count(
                key@,
                now_ms,
            ) + 1 && r.remaining == old(self).spec_max_requests() - final(self).spec_count(
                key@,
                now_ms,
            ),
            !r.allowed ==> final(self).spec_count(key@, now_ms) == old(self).spec_count(
                key@,
                now_ms,
            ) && r.remaining == 0,
            forall|k: Seq<char>|
                k != key@ ==> #[trigger] final(self).spec_count(k, now_ms) == old(self).spec_count(
                    k,
                    now_ms,
                );

    /// Forget everything counted against `key`.
    fn reset(&mut self, key: &str)
        requires
            old(self).wf(),
        ensures
            final(self).wf(),
            final(self).spec_max_requests() == old(self).spec_max_requests(),
            final(self).spec_window_secs() == old(self).spec_window_secs(),
            forall|t: u64| final(self).spec_count(key@, t) == 0,
            forall|k: Seq<char>, t: u64|
                k != key@ ==> #[trigger] final(self).spec_count(k, t) == old(self).spec_count(
                    k,
                    t,
                );

    /// Requests left for `key` without counting one.
    fn get_remaining(&self, key: &str, now_ms: u64) -> (r: u32)
        requires
            self.wf(),
        ensures
            r == self.spec_max_requests() - self.spec_count(key@, now_ms);
}

struct WindowEntry {
    key: String,
    count: u32,
    window_start_ms: u64,
}

/// The in-memory fixed-window limiter.
pub struct MemoryRateLimiter {
    max_requests: u32,
    window_secs: u64,
    entries: Vec<WindowEntry>,
}

impl MemoryRateLimiter {
    spec fn spec_entry_index(self, key: Seq<char>) -> int {
        choose|i: int| 0 <= i < self.entries@.len() && self.entries@[i].key@ == key
    }

    spec fn spec_has_entry(self, key: Seq<char>) -> bool {
        exists|i: int| 0 <= i < self.entries@.len() && self.entries@[i].key@ == key
    }

    /// Whether a window is recorded for `key` (it may already have lapsed).
    pub closed spec fn spec_has_window(self, key: Seq<char>) -> bool {
        self.spec_has_entry(key)
    }

    /// When the recorded window of `key` opened.
    pub closed spec fn spec_window_start(self, key: Seq<char>) -> u64 {
        self.entries@[self.spec_entry_index(key)].window_start_ms
    }

    /// Requests counted in the recorded window of `key`.
    pub closed spec fn spec_raw_count(self, key: Seq<char>) -> nat {
        self.entries@[self.spec_entry_index(key)].count as nat
    }

    pub fn new(max_requests: u32, window_secs: u64) -> (r: MemoryRateLimiter)
        requires
            1 <= window_secs <= LIMITER_MAX_WINDOW_SECS,
        ensures
            r.wf(),
            r.spec_max_requests() == max_requests,
            r.spec_window_secs() == window_secs,
            forall|k: Seq<char>, t: u64| r.spec_count(k, t) == 0,
    {
        MemoryRateLimiter { max_requests, window_secs, entries: Vec::new() }
    }

    fn find_entry(&self, key: &str) -> (r: Option<usize>)
        ensures
            match r {
                Option::Some(i) => i < self.entries@.len() && self.entries@[i as int].key@ == key@,
                Option::None => !self.spec_has_entry(key@),
            },
    {
        let n = self.entries.len();
        let mut i: usize = 0;
        while i < n
            invariant
                i <= n,
                n == self.entries@.len(),
                forall|j: int| 0 <= j < i ==> self.entries@[j].key@ != key@,
            decreases n - i,
        {
            if str_eq(self.entries[i].key.as_str(), key) {
                return Option::Some(i);
            }
            i += 1;
        }
        Option::None
    }

    proof fn lemma_entry_index_unique(self, key: Seq<char>, i: int)
        requires
            forall|a: int, b: int|
                0 <= a < b < self.entries@.len() ==> self.entries@[a].key@
                    != self.entries@[b].key@,
            0 <= i < self.entries@.len(),
            self.entries@[i].key@ == key,
        ensures
            self.spec_has_entry(key),
            self.spec_entry_index(key) == i,
    {
        let j = self.spec_entry_index(key);
        if j != i {
            if j < i {
                assert(self.entries@[j].key@ != self.entries@[i].key@);
            } else {
                assert(self.entries@[i].key@ != self.entries@[j].key@);
            }
        }
    }
}

impl RateLimiter for MemoryRateLimiter {
    /// Keys never repeat and the window length stays small enough for the
    /// millisecond arithmetic.
    closed spec fn wf(&self) -> bool {
        &&& forall|i: int, j: int|
            0 <= i < j < self.entries@.len() ==> self.entries@[i].key@ != self.entries@[j].key@
        &&& 1 <= self.window_secs <= LIMITER_MAX_WINDOW_SECS
        &&& forall|i: int|
            0 <= i < self.entries@.len() ==> 1 <= (#[trigger] self.entries@[i]).count
                <= self.max_requests
    }

    closed spec fn spec_max_requests(&self) -> u32 {
        self.max_requests
    }

    closed spec fn spec_window_secs(&self) -> u64 {
        self.window_secs
    }

    open spec fn spec_count(&self, key: Seq<char>, now_ms: u64) -> nat {
        if self.spec_has_window(key) && now_ms >= self.spec_window_start(key) && now_ms
            - self.spec_window_start(key) < self.spec_window_secs() * 1000 {
            self.spec_raw_count(key)
        } else {
            0
        }
    }

    fn check(&self, key: &str, now_ms: u64) -> (r: RateLimitResult) {
        let count: u32 = match self.find_entry(key) {
            Option::Some(i) => {
                proof {
                    self.lemma_entry_index_unique(key@, i as int);
                }
                let e = &self.entries[i];
                if now_ms >= e.window_start_ms && now_ms - e.window_start_ms < self.window_secs
                    * 1000 {
                    e.count
                } else {
                    0
                }
            },
            Option::None => 0,
        };
        let allowed = count < self.max_requests;
        let remaining = if count < self.max_requests {
            self.max_requests - count
        } else {
            0
        };
        RateLimitResult { allowed, remaining, reset_after: self.window_secs, limit: self.max_requests }
    }

    fn increment(&mut self, key: &str, now_ms: u64) -> (r: RateLimitResult)
        ensures
            !r.allowed ==> *final(self) == *old(self),
            r.allowed ==> final(self).spec_has_window(key@) && final(self).spec_raw_count(key@)
                == old(self).spec_count(key@, now_ms) + 1 && final(self).spec_window_start(key@)
                == (if old(self).spec_count(key@, now_ms) > 0 {
                old(self).spec_window_start(key@)
            } else {
                now_ms
            }),
    {
        let ghost pre = *self;
        match self.find_entry(key) {
            Option::Some(i) => {
                proof {
                    pre.lemma_entry_index_unique(key@, i as int);
                }
                let active = now_ms >= self.entries[i].window_start_ms && now_ms - self.entries[
                    i].window_start_ms < self.window_secs * 1000;
                let old_count: u32 = if active {
                    self.entries[i].count
                } else {
                    0
                };
                if old_count >= self.max_requests {
                    return RateLimitResult {
                        allowed: false,
                        remaining: 0,
                        reset_after: self.window_secs,
                        limit: self.max_requests,
                    };
                }
                let mut e = self.entries.remove(i);
                if active {
                    e.count = e.count + 1;
                } else {
                    e.count = 1;
                    e.window_start_ms = now_ms;
                }
                let ghost e2 = e;
                self.entries.insert(i, e);
                proof {
                    assert(self.entries@ =~= pre.entries@.update(i as int, e2));
                    assert forall|a: int, b: int|
                        0 <= a < b < self.entries@.len() implies self.entries@[a].key@
                        != self.entries@[b].key@ by {
                        assert(self.entries@[a].key@ == pre.entries@[a].key@);
                        assert(self.entries@[b].key@ == pre.entries@[b].key@);
                    }
                    self.lemma_entry_index_unique(key@, i as int);
                    assert forall|k: Seq<char>|
                        k != key@ implies #[trigger] self.spec_has_window(k) == pre.spec_has_window(
                        k,
                    ) && (pre.spec_has_window(k) ==> self.spec_window_start(k)
                        == pre.spec_window_start(k) && self.spec_raw_count(k)
                        == pre.spec_raw_count(k)) by {
                        if self.spec_has_entry(k) {
                            let j = choose|j: int|
                                0 <= j < self.entries@.len() && self.entries@[j].key@ == k;
                            assert(j != i);
                            assert(pre.entries@[j].key@ == k);
                            self.lemma_entry_index_unique(k, j);
                            pre.lemma_entry_index_unique(k, j);
                        } else {
                            if pre.spec_has_entry(k) {
                                let j = choose|j: int|
                                    0 <= j < pre.entries@.len() && pre.entries@[j].key@ == k;
                                assert(self.entries@[j].key@ == k);
                            }
                        }
                    }
                    assert forall|k: Seq<char>|
                        k != key@ implies #[trigger] self.spec_count(k, now_ms) == pre.spec_count(
                        k,
                        now_ms,
                    ) by {}
                    assert(self.spec_raw_count(key@) == pre.spec_count(key@, now_ms) + 1);
                    assert(self.spec_window_start(key@) == (
                    if pre.spec_count(key@, now_ms) > 0 {
                        pre.spec_window_start(key@)
                    } else {
                        now_ms
                    }));
                }
                let remaining = self.max_requests - old_count - 1;
                RateLimitResult {
                    allowed: true,
                    remaining,
                    reset_after: self.window_secs,
                    limit: self.max_requests,
                }
            },
            Option::None => {
                if self.max_requests == 0 {
                    return RateLimitResult {
                        allowed: false,
                        remaining: 0,
                        reset_after: self.window_secs,
                        limit: self.max_requests,
                    };
                }
                let e = WindowEntry {
                    key: String::from_str(key),
                    count: 1,
                    window_start_ms: now_ms,
                };
                self.entries.push(e);
                proof {
                    assert(self.entries@.drop_last() =~= pre.entries@);
                    assert forall|a: int, b: int|
                        0 <= a < b < self.entries@.len() implies self.entries@[a].key@
                        != self.entries@[b].key@ by {
                        if b == self.entries@.len() - 1 {
                            assert(pre.entries@[a].key@ == self.entries@[a].key@);
                            if self.entries@[a].key@ == key@ {
                                assert(pre.spec_has_entry(key@));
                            }
                        } else {
                            assert(self.entries@[a].key@ == pre.entries@[a].key@);
                            assert(self.entries@[b].key@ == pre.entries@[b].key@);
                        }
                    }
                    self.lemma_entry_index_unique(key@, self.entries@.len() - 1);
                    assert forall|k: Seq<char>|
                        k != key@ implies #[trigger] self.spec_has_window(k) == pre.spec_has_window(
                        k,
                    ) && (pre.spec_has_window(k) ==> self.spec_window_start(k)
                        == pre.spec_window_start(k) && self.spec_raw_count(k)
                        == pre.spec_raw_count(k)) by {
                        if self.spec_has_entry(k) {
                            let j = choose|j: int|
                                0 <= j < self.entries@.len() && self.entries@[j].key@ == k;
                            assert(j < pre.entries@.len());
                            assert(pre.entries@[j].key@ == k);
                            self.lemma_entry_index_unique(k, j);
                            pre.lemma_entry_index_unique(k, j);
                        } else {
                            if pre.spec_has_entry(k) {
                                let j = choose|j: int|
                                    0 <= j < pre.entries@.len() && pre.entries@[j].key@ == k;
                                assert(self.entries@[j].key@ == k);
                            }
                        }
                    }
                    assert forall|k: Seq<char>|
                        k != key@ implies #[trigger] self.spec_count(k, now_ms) == pre.spec_count(
                        k,
                        now_ms,
                    ) by {}
                }
                RateLimitResult {
                    allowed: true,
                    remaining: self.max_requests - 1,
                    reset_after: self.window_secs,
                    limit: self.max_requests,
                }
            },
        }
    }

    fn reset(&mut self, key: &str)
        ensures
            !final(self).spec_has_window(key@),
    {
        let ghost pre = *self;
        match self.find_entry(key) {
            Option::None => {
                proof {
                    assert forall|t: u64| self.spec_count(key@, t) == 0 by {}
                }
            },
            Option::Some(i) => {
                proof {
                    pre.lemma_entry_index_unique(key@, i as int);
                }
                self.entries.remove(i);
                proof {
                    assert(self.entries@ =~= pre.entries@.remove(i as int));
                    assert forall|a: int, b: int|
                        0 <= a < b < self.entries@.len() implies self.entries@[a].key@
                        != self.entries@[b].key@ by {
                        let oa = if a < i as int {
                            a
                        } else {
                            a + 1
                        };
                        let ob = if b < i as int {
                            b
                        } else {
                            b + 1
                        };
                        assert(self.entries@[a] == pre.entries@[oa]);
                        assert(self.entries@[b] == pre.entries@[ob]);
                    }
                    assert forall|t: u64| self.spec_count(key@, t) == 0 by {
                        if self.spec_has_entry(key@) {
                            let j = choose|j: int|
                                0 <= j < self.entries@.len() && self.entries@[j].key@ == key@;
                            let oj = if j < i as int {
                                j
                            } else {
                                j + 1
                            };
                            assert(pre.entries@[oj].key@ == key@);
                            pre.lemma_entry_index_unique(key@, oj);
                        }
                    }
                    assert forall|k: Seq<char>|
                        k != key@ implies #[trigger] self.spec_has_window(k) == pre.spec_has_window(
                        k,
                    ) && (pre.spec_has_window(k) ==> self.spec_window_start(k)
                        == pre.spec_window_start(k) && self.spec_raw_count(k)
                        == pre.spec_raw_count(k)) by {
                        if self.spec_has_entry(k) {
                            let j = choose|j: int|
                                0 <= j < self.entries@.len() && self.entries@[j].key@ == k;
                            let oj = if j < i as int {
                                j
                            } else {
                                j + 1
                            };
                            assert(pre.entries@[oj].key@ == k);
                            self.lemma_entry_index_unique(k, j);
                            pre.lemma_entry_index_unique(k, oj);
                            assert(self.entries@[j] == pre.entries@[oj]);
                        } else {
                            if pre.spec_has_entry(k) {
                                let j = choose|j: int|
                                    0 <= j < pre.entries@.len() && pre.entries@[j].key@ == k;
                                assert(j != i);
                                let pj = if j < i as int {
                                    j
                                } else {
                                    j - 1
                                };
                                assert(self.entries@[pj].key@ == k);
                            }
                        }
                    }
                    assert forall|k: Seq<char>, t: u64|
                        k != key@ implies #[trigger] self.spec_count(k, t) == pre.spec_count(
                        k,
                        t,
                    ) by {
                        if self.spec_has_entry(k) {
                            let j = choose|j: int|
                                0 <= j < self.entries@.len() && self.entries@[j].key@ == k;
                            let oj = if j < i as int {
                                j
                            } else {
                                j + 1
                            };
                            assert(pre.entries@[oj].key@ == k);
                            self.lemma_entry_index_unique(k, j);
                            pre.lemma_entry_index_unique(k, oj);
                            assert(self.entries@[j] == pre.entries@[oj]);
                        } else {
                            if pre.spec_has_entry(k) {
                                let j = choose|j: int|
                                    0 <= j < pre.entries@.len() && pre.entries@[j].key@ == k;
                                assert(j != i);
                                let pj = if j < i as int {
                                    j
                                } else {
                                    j - 1
                                };
                                assert(self.entries@[pj].key@ == k);
                            }
                        }
                    }
                }
            },
        }
    }

    fn get_remaining(&self, key: &str, now_ms: u64) -> (r: u32) {
        let res = self.check(key, now_ms);
        res.remaining
    }
}

} // verus!
