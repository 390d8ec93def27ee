//! An in-memory string-to-string map with per-entry expiry. It memoizes the
//! last event on cache channels and dedupes webhook emission; the clock is
//! handed in by the caller.

use vstd::prelude::*;
use crate::channel::{is_cache_channel, spec_is_cache_channel};
use crate::text::str_eq;

verus! {

struct CacheEntry {
    key: String,
    value: String,
    expires_at_ms: u64,
}

/// The in-memory TTL cache.
pub struct MemoryCache {
    entries: Vec<CacheEntry>,
}

/// What a fresh subscriber to a channel is owed from the cache.
#[derive(Debug)]
pub enum CacheReplay {
    /// A cache channel with a memoized last event: replay it.
    Replay(String),
    /// A cache channel with nothing memoized: tell the client.
    CacheMiss,
    /// Not a cache channel; the cache has no say.
    NotCacheChannel,
}

impl MemoryCache {
    pub closed spec fn wf(self) -> bool {
        forall|i: int, j: int|
            0 <= i < j < self.entries@.len() ==> self.entries@[i].key@ != self.entries@[j].key@
    }

    spec fn spec_entry_index(self, key: Seq<char>) -> int {
        choose|i: int| 0 <= i < self.entries@.len() && self.entries@[i].key@ == key
    }

    spec fn spec_has_entry(self, key: Seq<char>) -> bool {
        exists|i: int| 0 <= i < self.entries@.len() && self.entries@[i].key@ == key
    }

    /// The live value under `key` at `now`, if any.
    pub closed spec fn spec_lookup(self, key: Seq<char>, now_ms: u64) -> Option<Seq<char>> {
        if self.spec_has_entry(key) && now_ms < self.entries@[self.spec_entry_index(
            key,
        )].expires_at_ms {
            Option::Some(self.entries@[self.spec_entry_index(key)].value@)
        } else {
            Option::None
        }
    }

    pub fn new() -> (r: MemoryCache)
        ensures
            r.wf(),
            forall|k: Seq<char>, t: u64| r.spec_lookup(k, t) is None,
    {
        MemoryCache { entries: Vec::new() }
    }

    fn find_entry(&self, key: &str) -> (r: Option<usize>)
        ensures
            match r {
                Option::Some(i) => i < self.entries@.len() && self.entries@[i as int].key@ == key@,
                Option::None => !self.spec_has_entry(key@),
            },
    {
        let n = self.entries.len();
        let mut i: usize = 0;
        while i < n
            invariant
                i <= n,
                n == self.entries@.len(),
                forall|j: int| 0 <= j < i ==> self.entries@[j].key@ != key@,
            decreases n - i,
        {
            if str_eq(self.entries[i].key.as_str(), key) {
                return Option::Some(i);
            }
            i += 1;
        }
        Option::None
    }

    proof fn lemma_entry_index_unique(self, key: Seq<char>, i: int)
        requires
            self.wf(),
            0 <= i < self.entries@.len(),
            self.entries@[i].key@ == key,
        ensures
            self.spec_has_entry(key),
            self.spec_entry_index(key) == i,
    {
        let j = self.spec_entry_index(key);
        if j != i {
            if j < i {
                assert(self.entries@[j].key@ != self.entries@[i].key@);
            } else {
                assert(self.entries@[i].key@ != self.entries@[j].key@);
            }
        }
    }

    /// Read the live value under `key`, a copy of what was stored.
    pub fn get(&self, key: &str, now_ms: u64) -> (r: Option<String>)
        requires
            self.wf(),
        ensures
            match r {
                Option::Some(v) => self.spec_lookup(key@, now_ms) == Option::Some(v@),
                Option::None => self.spec_lookup(key@, now_ms) is None,
            },
    {
        match self.find_entry(key) {
            Option::None => Option::None,
            Option::Some(i) => {
                proof {
                    self.lemma_entry_index_unique(key@, i as int);
                }
                if now_ms < self.entries[i].expires_at_ms {
                    Option::Some(String::from_str(self.entries[i].value.as_str()))
                } else {
                    Option::None
                }
            },
        }
    }

    /// Store `value` under `key` until `expires_at_ms`, replacing whatever
    /// was there.
    pub fn set(&mut self, key: &str, value: &str, expires_at_ms: u64)
        requires
            old(self).wf(),
        ensures
            final(self).wf(),
            forall|t: u64|
                #[trigger] final(self).spec_lookup(key@, t) == (if t < expires_at_ms {
                    Option::Some(value@)
                } else {
                    Option::<Seq<char>>::None
                }),
            forall|k: Seq<char>, t: u64|
                k != key@ ==> #[trigger] final(self).spec_lookup(k, t) == old(self).spec_lookup(
                    k,
                    t,
                ),
    {
        let ghost pre = *self;
        match self.find_entry(key) {
            Option::Some(i) => {
                proof {
                    pre.lemma_entry_index_unique(key@, i as int);
                }
                let mut e = self.entries.remove(i);
                e.value = String::from_str(value);
                e.expires_at_ms = expires_at_ms;
                let ghost e2 = e;
                self.entries.insert(i, e);
                proof {
                    assert(self.entries@ =~= pre.entries@.update(i as int, e2));
                    assert forall|a: int, b: int|
                        0 <= a < b < self.entries@.len() implies self.entries@[a].key@
                        != self.entries@[b].key@ by {
                        assert(self.entries@[a].key@ == pre.entries@[a].key@);
                        assert(self.entries@[b].key@ == pre.entries@[b].key@);
                    }
                    self.lemma_entry_index_unique(key@, i as int);
                    assert forall|k: Seq<char>, t: u64|
                        k != key@ implies #[trigger] self.spec_lookup(k, t) == pre.spec_lookup(
                        k,
                        t,
                    ) by {
                        if self.spec_has_entry(k) {
                            let j = choose|j: int|
                                0 <= j < self.entries@.len() && self.entries@[j].key@ == k;
                            assert(j != i);
                            assert(pre.entries@[j].key@ == k);
                            self.lemma_entry_index_unique(k, j);
                            pre.lemma_entry_index_unique(k, j);
                        } else {
                            if pre.spec_has_entry(k) {
                                let j = choose|j: int|
                                    0 <= j < pre.entries@.len() && pre.entries@[j].key@ == k;
                                assert(self.entries@[j].key@ == k);
                            }
                        }
                    }
                }
            },
            Option::None => {
                let e = CacheEntry {
                    key: String::from_str(key),
                    value: String::from_str(value),
                    expires_at_ms,
                };
                self.entries.push(e);
                proof {
                    assert(self.entries@.drop_last() =~= pre.entries@);
                    assert forall|a: int, b: int|
                        0 <= a < b < self.entries@.len() implies self.entries@[a].key@
                        != self.entries@[b].key@ by {
                        if b == self.entries@.len() - 1 {
                            assert(pre.entries@[a].key@ == self.entries@[a].key@);
                            if self.entries@[a].key@ == key@ {
                                assert(pre.spec_has_entry(key@));
                            }
                        } else {
                            assert(self.entries@[a].key@ == pre.entries@[a].key@);
                            assert(self.entries@[b].key@ == pre.entries@[b].key@);
                        }
                    }
                    self.lemma_entry_index_unique(key@, self.entries@.len() - 1);
                    assert forall|k: Seq<char>, t: u64|
                        k != key@ implies #[trigger] self.spec_lookup(k, t) == pre.spec_lookup(
                        k,
                        t,
                    ) by {
                        if self.spec_has_entry(k) {
                            let j = choose|j: int|
                                0 <= j < self.entries@.len() && self.entries@[j].key@ == k;
                            assert(j < pre.entries@.len());
                            assert(pre.entries@[j].key@ == k);
                            self.lemma_entry_index_unique(k, j);
                            pre.lemma_entry_index_unique(k, j);
                        } else {
                            if pre.spec_has_entry(k) {
                                let j = choose|j: int|
                                    0 <= j < pre.entries@.len() && pre.entries@[j].key@ == k;
                                assert(self.entries@[j].key@ == k);
                            }
                        }
                    }
                }
            },
        }
    }

    /// What a fresh subscriber to `channel` receives from the cache: the
    /// memoized event on a warm cache channel, a miss notice on a cold
    /// one, nothing elsewhere.
    pub fn on_subscribe(&self, channel: &str, now_ms: u64) -> (r: CacheReplay)
        requires
            self.wf(),
        ensures
            match r {
                CacheReplay::Replay(v) => spec_is_cache_channel(channel@) && self.spec_lookup(
                    channel@,
                    now_ms,
                ) == Option::Some(v@),
                CacheReplay::CacheMiss => spec_is_cache_channel(channel@) && self.spec_lookup(
                    channel@,
                    now_ms,
                ) is None,
                CacheReplay::NotCacheChannel => !spec_is_cache_channel(channel@),
            },
    {
        if !is_cache_channel(channel) {
            return CacheReplay::NotCacheChannel;
        }
        match self.get(channel, now_ms) {
            Option::Some(v) => CacheReplay::Replay(v),
            Option::None => CacheReplay::CacheMiss,
        }
    }
}

} // verus!
