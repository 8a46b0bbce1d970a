//! The Dispatcher: in-flight request deduplication over a bounded worker
//! pool, wrapping the MemoryCache.
//!
//! Many callers may ask for the same chunk at once; the dispatcher keeps an
//! in-flight record per chunk key so that exactly one of them — the owner —
//! runs the underlying fetch, while the rest register as waiters and
//! receive the owner's result. The worker pool is bounded: a demand request
//! always proceeds, but a speculative request is dropped rather than queued
//! when the pool's queue is full.
//!
//! Here the check-and-insert of an in-flight record ([`Dispatcher::begin_get`])
//! and the resolve-and-remove step ([`Dispatcher::resolve`]) are the atomic
//! state transitions; the caller serializes them, as the lock around the
//! in-flight map does in a threaded setting.

use vstd::prelude::*;
use crate::cache::{after_access, after_insert, data_of, has_key, MemoryCache};
use crate::chunk::{Chunk, ChunkKey, FetchError, StoreOutcome};
use crate::fetch::fetch_result;

verus! {

/// The record of one chunk fetch currently in flight: its key, how many
/// callers wait on it besides the owner, and whether it occupies a slot in
/// the worker pool's queue (speculative jobs do; demand jobs hold their
/// caller instead).
#[derive(Clone, Copy, PartialEq, Eq, Structural)]
pub struct Pending {
    pub key: ChunkKey,
    pub waiters: u64,
    pub queued: bool,
}

/// Whether some record of `s` is for `key`.
pub open spec fn pending_has(s: Seq<Pending>, key: ChunkKey) -> bool {
    exists|i: int| 0 <= i < s.len() && s[i].key == key
}

/// The position of `key`'s record (meaningful under `pending_has` and
/// unique keys).
pub open spec fn pending_index(s: Seq<Pending>, key: ChunkKey) -> int {
    choose|i: int| 0 <= i < s.len() && s[i].key == key
}

/// No two in-flight records share a key: the dedup invariant.
pub open spec fn pending_unique(s: Seq<Pending>) -> bool {
    forall|i: int, j: int| 0 <= i < j < s.len() ==> s[i].key != s[j].key
}

/// How many in-flight records occupy a queue slot.
pub open spec fn queued_count(s: Seq<Pending>) -> int
    decreases s.len(),
{
    if s.len() == 0 {
        0
    } else {
        queued_count(s.drop_last()) + if s.last().queued {
            1int
        } else {
            0int
        }
    }
}

/// The in-flight records after the record of `key` is resolved and
/// removed.
pub open spec fn after_resolve(s: Seq<Pending>, key: ChunkKey) -> Seq<Pending> {
    if pending_has(s, key) {
        s.remove(pending_index(s, key))
    } else {
        s
    }
}

/// What a `Dispatcher::begin_get` call hands back: a cached chunk at once,
/// ownership of the one fetch for the key, or a place among the waiters on
/// a fetch already in flight.
pub enum GetTicket {
    Ready(Chunk),
    Owner,
    Waiter,
}

/// Deduplicates chunk fetches over a worker pool of fixed size, wrapping a
/// MemoryCache.
pub struct Dispatcher {
    cache: MemoryCache,
    inflight: Vec<Pending>,
    threads: usize,
}

impl Dispatcher {
    /// The cache layer beneath.
    pub closed spec fn cache_of(self) -> MemoryCache {
        self.cache
    }

    /// The in-flight records, in order of creation.
    pub closed spec fn pending(self) -> Seq<Pending> {
        self.inflight@
    }

    /// The worker pool's size, which also bounds its queue.
    pub closed spec fn pool_size(self) -> int {
        self.threads as int
    }

    /// Well-formed: the cache is, at most one in-flight record per key, and
    /// the queued jobs fit the pool's bounded queue.
    pub open spec fn wf(self) -> bool {
        &&& self.cache_of().wf()
        &&& pending_unique(self.pending())
        &&& queued_count(self.pending()) <= self.pool_size()
        &&& self.pool_size() >= 1
    }

    /// A dispatcher over `cache` with a worker pool of `threads` workers.
    pub fn new(cache: MemoryCache, threads: usize) -> (d: Dispatcher)
        requires
            cache.wf(),
            threads >= 1,
        ensures
            d.wf(),
            d.cache_of() == cache,
            d.pending() == Seq::<Pending>::empty(),
            d.pool_size() == threads,
    {
        let d = Dispatcher { cache, inflight: Vec::new(), threads };
        proof {
            assert(d.pending() =~= Seq::<Pending>::empty());
        }
        d
    }

    /// The position of `key`'s in-flight record, if there is one.
    fn find_pending(&self, file_id: u64, chunk_index: u64) -> (r: Option<usize>)
        requires
            self.wf(),
        ensures
            ({
                let key = ChunkKey { file_id, chunk_index };
                match r {
                    Some(i) => i < self.pending().len() && self.pending()[i as int].key == key
                        && i as int == pending_index(self.pending(), key),
                    None => !pending_has(self.pending(), key),
                }
            }),
    {
        let key = ChunkKey { file_id, chunk_index };
        let n = self.inflight.len();
        let mut i: usize = 0;
        while i < n
            invariant
                self.wf(),
                n == self.pending().len(),
                i <= n,
                key == (ChunkKey { file_id, chunk_index }),
                forall|j: int| 0 <= j < i ==> self.pending()[j].key != key,
            decreases n - i,
        {
            if self.inflight[i].key == key {
                proof {
                    let s = self.pending();
                    let w = pending_index(s, key);
                    assert(0 <= w < s.len() && s[w].key == key);
                    if w != i as int {
                        assert(s[w].key == s[i as int].key);
                    }
                }
                return Some(i);
            }
            i = i + 1;
        }
        None
    }

    /// Whether `(file_id, chunk_index)` has a cached chunk, without
    /// recording an access: the probe behind the fast path and behind the
    /// Prefetcher's skip of already-ready chunks.
    pub fn cached(&self, file_id: u64, chunk_index: u64) -> (r: bool)
        requires
            self.wf(),
        ensures
            r == has_key(self.cache_of().recency(), ChunkKey { file_id, chunk_index }),
    {
        self.cache.contains(file_id, chunk_index)
    }

    /// Whether a fetch for `(file_id, chunk_index)` is in flight.
    pub fn is_inflight(&self, file_id: u64, chunk_index: u64) -> (r: bool)
        requires
            self.wf(),
        ensures
            r == pending_has(self.pending(), ChunkKey { file_id, chunk_index }),
    {
        match self.find_pending(file_id, chunk_index) {
            Some(_) => true,
            None => false,
        }
    }

    /// The atomic check-and-insert at the heart of deduplication. A cached
    /// chunk is returned at once, without touching the pool. Otherwise, if
    /// no fetch for the key is in flight, the caller becomes the owner of a
    /// new in-flight record — there is no window in which two callers both
    /// become owner; if one is in flight, the caller is registered as one
    /// more waiter on it.
    pub fn begin_get(&mut self, file_id: u64, chunk_index: u64) -> (t: GetTicket)
        requires
            old(self).wf(),
            pending_has(old(self).pending(), ChunkKey { file_id, chunk_index }) ==> old(self).pending()[pending_index(old(self).pending(), ChunkKey { file_id, chunk_index })].waiters < u64::MAX,
        ensures
            final(self).wf(),
            final(self).pool_size() == old(self).pool_size(),
            final(self).cache_of().cap() == old(self).cache_of().cap(),
            final(self).cache_of().fetcher_of() == old(self).cache_of().fetcher_of(),
            ({
                let key = ChunkKey { file_id, chunk_index };
                let cached = old(self).cache_of().recency();
                if has_key(cached, key) {
                    &&& t matches GetTicket::Ready(c) && c.key == key && c.data@ == data_of(
                        cached,
                        key,
                    )
                    &&& final(self).cache_of().recency() == after_access(cached, key)
                    &&& final(self).pending() == old(self).pending()
                } else if pending_has(old(self).pending(), key) {
                    &&& t == GetTicket::Waiter
                    &&& final(self).cache_of().recency() == cached
                    &&& ({
                        let i = pending_index(old(self).pending(), key);
                        let p = old(self).pending()[i];
                        final(self).pending() == old(self).pending().update(
                            i,
                            Pending { key: p.key, waiters: (p.waiters + 1) as u64, queued: p.queued },
                        )
                    })
                } else {
                    &&& t == GetTicket::Owner
                    &&& final(self).cache_of().recency() == cached
                    &&& final(self).pending() == old(self).pending().push(
                        Pending { key, waiters: 0, queued: false },
                    )
                }
            }),
    {
        let ghost key = ChunkKey { file_id, chunk_index };
        match self.cache.lookup(file_id, chunk_index) {
            Some(c) => GetTicket::Ready(c),
            None => {
                match self.find_pending(file_id, chunk_index) {
                    Some(i) => {
                        let p = self.inflight[i];
                        let bumped = Pending { key: p.key, waiters: p.waiters + 1, queued: p.queued };
                        self.inflight.set(i, bumped);
                        proof {
                            lemma_queued_count_update(old(self).pending(), i as int, bumped);
                            lemma_unique_update_same_key(old(self).pending(), i as int, bumped);
                        }
                        GetTicket::Waiter
                    },
                    None => {
                        self.inflight.push(Pending { key: ChunkKey { file_id, chunk_index }, waiters: 0, queued: false });
                        proof {
                            let s0 = old(self).pending();
                            let p = Pending { key, waiters: 0, queued: false };
                            lemma_queued_count_push(s0, p);
                            assert forall|a: int, b: int|
                                0 <= a < b < self.pending().len() implies self.pending()[a].key
                                != self.pending()[b].key by {
                                if b < s0.len() {
                                    assert(self.pending()[a] == s0[a] && self.pending()[b] == s0[b]);
                                } else {
                                    assert(self.pending()[b] == p);
                                    assert(self.pending()[a] == s0[a]);
                                    assert(!pending_has(s0, key));
                                }
                            }
                        }
                        GetTicket::Owner
                    },
                }
            },
        }
    }

    /// The resolve-and-remove step: the owner (or the worker that ran a
    /// speculative job) reports the fetch's terminal result; every
    /// registered waiter observes that same result, and the in-flight
    /// record is removed — after a failure nothing lingers, so the next
    /// call for the key starts a fresh attempt.
    pub fn resolve(&mut self, file_id: u64, chunk_index: u64, result: Result<Chunk, FetchError>)
        -> (out: Result<Chunk, FetchError>)
        requires
            old(self).wf(),
            pending_has(old(self).pending(), ChunkKey { file_id, chunk_index }),
        ensures
            final(self).wf(),
            final(self).pool_size() == old(self).pool_size(),
            final(self).cache_of() == old(self).cache_of(),
            final(self).pending() == after_resolve(
                old(self).pending(),
                ChunkKey { file_id, chunk_index },
            ),
            !pending_has(final(self).pending(), ChunkKey { file_id, chunk_index }),
            out == result,
    {
        let ghost key = ChunkKey { file_id, chunk_index };
        match self.find_pending(file_id, chunk_index) {
            Some(i) => {
                let _ = self.inflight.remove(i);
                proof {
                    let s0 = old(self).pending();
                    lemma_queued_count_remove(s0, i as int);
                    lemma_unique_remove(s0, i as int);
                    lemma_removed_key_gone(s0, i as int);
                }
            },
            None => {
                proof {
                    assert(false);
                }
            },
        }
        result
    }

    /// Submits one speculative fetch. It is accepted — an in-flight record
    /// with a queue slot is created for the pool's workers — only when the
    /// chunk is neither cached nor already in flight and the bounded queue
    /// has room; otherwise it is dropped at once, never blocking the
    /// submitter and never displacing demand work.
    pub fn offer_speculative(&mut self, file_id: u64, chunk_index: u64) -> (accepted: bool)
        requires
            old(self).wf(),
        ensures
            final(self).wf(),
            final(self).pool_size() == old(self).pool_size(),
            final(self).cache_of() == old(self).cache_of(),
            ({
                let key = ChunkKey { file_id, chunk_index };
                &&& accepted == (!has_key(old(self).cache_of().recency(), key) && !pending_has(
                    old(self).pending(),
                    key,
                ) && queued_count(old(self).pending()) < old(self).pool_size())
                &&& final(self).pending() == if accepted {
                    old(self).pending().push(Pending { key, waiters: 0, queued: true })
                } else {
                    old(self).pending()
                }
                &&& queued_count(final(self).pending()) == queued_count(old(self).pending())
                    + if accepted {
                    1int
                } else {
                    0int
                }
            }),
    {
        let ghost key = ChunkKey { file_id, chunk_index };
        if self.cache.contains(file_id, chunk_index) {
            return false;
        }
        match self.find_pending(file_id, chunk_index) {
            Some(_) => false,
            None => {
                let used = self.queued_jobs();
                if used < self.threads {
                    let p = Pending { key: ChunkKey { file_id, chunk_index }, waiters: 0, queued: true };
                    self.inflight.push(p);
                    proof {
                        let s0 = old(self).pending();
                        lemma_queued_count_push(s0, p);
                        assert forall|a: int, b: int|
                            0 <= a < b < self.pending().len() implies self.pending()[a].key
                            != self.pending()[b].key by {
                            if b < s0.len() {
                                assert(self.pending()[a] == s0[a] && self.pending()[b] == s0[b]);
                            } else {
                                assert(self.pending()[b] == p);
                                assert(self.pending()[a] == s0[a]);
                                assert(!pending_has(s0, key));
                            }
                        }
                    }
                    true
                } else {
                    false
                }
            },
        }
    }

    /// How many queue slots speculative jobs occupy.
    pub fn queued_jobs(&self) -> (n: usize)
        requires
            self.wf(),
        ensures
            n == queued_count(self.pending()),
    {
        let m = self.inflight.len();
        let mut n: usize = 0;
        let mut i: usize = 0;
        while i < m
            invariant
                self.wf(),
                m == self.pending().len(),
                i <= m,
                n == queued_count(self.pending().take(i as int)),
                n <= i,
            decreases m - i,
        {
            proof {
                let s = self.pending();
                assert(s.take(i + 1).drop_last() =~= s.take(i as int));
                assert(s.take(i + 1).last() == s[i as int]);
            }
            if self.inflight[i].queued {
                n = n + 1;
            }
            i = i + 1;
        }
        proof {
            assert(self.pending().take(m as int) =~= self.pending());
        }
        n
    }

    /// The Dispatcher contract, serialized: one `get`, with the store's
    /// answers to the attempts of the underlying fetch given by `outcomes`.
    /// A cached chunk is returned without any fetch; otherwise exactly one
    /// `MemoryCache::get_or_fetch` for the key runs — here, in the caller,
    /// as the pool's worker would — its result resolves the in-flight
    /// record, and every waiter observes that same result. A failure leaves
    /// neither a cache entry nor an in-flight record behind.
    pub fn get(&mut self, file_id: u64, chunk_index: u64, outcomes: &Vec<StoreOutcome>) -> (r:
        Result<Chunk, FetchError>)
        requires
            old(self).wf(),
            outcomes@.len() >= old(self).cache_of().fetcher_of().budget,
            pending_has(old(self).pending(), ChunkKey { file_id, chunk_index }) ==> old(self).pending()[pending_index(old(self).pending(), ChunkKey { file_id, chunk_index })].waiters < u64::MAX,
        ensures
            final(self).wf(),
            final(self).pool_size() == old(self).pool_size(),
            final(self).cache_of().cap() == old(self).cache_of().cap(),
            final(self).cache_of().fetcher_of() == old(self).cache_of().fetcher_of(),
            ({
                let key = ChunkKey { file_id, chunk_index };
                let cached = old(self).cache_of().recency();
                if has_key(cached, key) {
                    r matches Ok(c) && c.key == key && c.data@ == data_of(cached, key)
                        && final(self).cache_of().recency() == after_access(cached, key)
                        && final(self).pending() == old(self).pending()
                } else {
                    final(self).pending() == after_resolve(old(self).pending(), key) && !pending_has(final(self).pending(), key) &&
                    match fetch_result(outcomes@, old(self).cache_of().fetcher_of().budget as int) {
                        Ok(d) => r matches Ok(c) && c.key == key && c.data@ == d
                            && final(self).cache_of().recency() == after_insert(
                            cached,
                            (key, d),
                            old(self).cache_of().cap(),
                        ),
                        Err(e) => r == Result::<Chunk, FetchError>::Err(e)
                            && final(self).cache_of().recency() == cached,
                    }
                }
            }),
    {
        let ghost key = ChunkKey { file_id, chunk_index };
        match self.begin_get(file_id, chunk_index) {
            GetTicket::Ready(c) => {
                Ok(c)
            },
            GetTicket::Owner => {
                proof {
                    let s0 = old(self).pending();
                    let pushed = s0.push(Pending { key, waiters: 0, queued: false });
                    assert(pushed[s0.len() as int].key == key);
                    assert(pending_has(pushed, key));
                }
                let r = self.cache.get_or_fetch(file_id, chunk_index, outcomes);
                let out = self.resolve(file_id, chunk_index, r);
                proof {
                    let s0 = old(self).pending();
                    let pushed = s0.push(Pending { key, waiters: 0, queued: false });
                    assert(pending_index(pushed, key) == s0.len()) by {
                        let w = pending_index(pushed, key);
                        assert(pushed[s0.len() as int].key == key);
                        assert(0 <= w < pushed.len() && pushed[w].key == key);
                        if w < s0.len() {
                            assert(!pending_has(s0, key));
                        }
                    }
                    assert(pushed.remove(s0.len() as int) =~= s0);
                    assert(after_resolve(s0, key) == s0);
                }
                out
            },
            GetTicket::Waiter => {
                proof {
                    let s0 = old(self).pending();
                    let i = pending_index(s0, key);
                    let p = s0[i];
                    let bumped = s0.update(
                        i,
                        Pending { key: p.key, waiters: (p.waiters + 1) as u64, queued: p.queued },
                    );
                    assert(bumped[i].key == key);
                    assert(pending_has(bumped, key));
                }
                let r = self.cache.get_or_fetch(file_id, chunk_index, outcomes);
                let out = self.resolve(file_id, chunk_index, r);
                proof {
                    let s0 = old(self).pending();
                    let i = pending_index(s0, key);
                    let p = s0[i];
                    let bumped = s0.update(
                        i,
                        Pending { key: p.key, waiters: (p.waiters + 1) as u64, queued: p.queued },
                    );
                    assert(pending_index(bumped, key) == i) by {
                        let w = pending_index(bumped, key);
                        assert(bumped[i].key == key);
                        assert(0 <= w < bumped.len() && bumped[w].key == key);
                        if w != i {
                            assert(s0[w].key == bumped[w].key);
                            assert(s0[w].key != s0[i].key);
                        }
                    }
                    assert(bumped.remove(i) =~= s0.remove(i));
                }
                out
            },
        }
    }

    /// The owner (or a worker) delivering the fetched chunk itself:
    /// inserts it into the cache and resolves the in-flight record, so
    /// every waiter observes the same chunk.
    pub fn fulfill(&mut self, chunk: Chunk) -> (out: Chunk)
        requires
            old(self).wf(),
            pending_has(old(self).pending(), chunk.key),
        ensures
            final(self).wf(),
            final(self).pool_size() == old(self).pool_size(),
            final(self).cache_of().cap() == old(self).cache_of().cap(),
            final(self).cache_of().fetcher_of() == old(self).cache_of().fetcher_of(),
            final(self).pending() == after_resolve(old(self).pending(), chunk.key),
            !pending_has(final(self).pending(), chunk.key),
            final(self).cache_of().recency() == after_insert(
                old(self).cache_of().recency(),
                (chunk.key, chunk.data@),
                old(self).cache_of().cap(),
            ),
            out.key == chunk.key,
            out.data@ == chunk.data@,
    {
        let c2 = chunk.duplicate();
        match self.find_pending(chunk.key.file_id, chunk.key.chunk_index) {
            Some(i) => {
                let _ = self.inflight.remove(i);
                proof {
                    let s0 = old(self).pending();
                    lemma_queued_count_remove(s0, i as int);
                    lemma_unique_remove(s0, i as int);
                    lemma_removed_key_gone(s0, i as int);
                }
            },
            None => {
                proof {
                    assert(false);
                }
            },
        }
        self.cache.insert(c2);
        chunk
    }

    /// A worker finishing one queued speculative job: runs the fetch
    /// against the cache layer and resolves the in-flight record. A
    /// failure is discarded — no reader waits on speculative work, and
    /// neither a cache entry nor an in-flight record is left behind.
    pub fn finish_speculative(&mut self, file_id: u64, chunk_index: u64, outcomes: &Vec<
        StoreOutcome,
    >) -> (r: Result<Chunk, FetchError>)
        requires
            old(self).wf(),
            pending_has(old(self).pending(), ChunkKey { file_id, chunk_index }),
            outcomes@.len() >= old(self).cache_of().fetcher_of().budget,
        ensures
            final(self).wf(),
            final(self).pool_size() == old(self).pool_size(),
            final(self).cache_of().cap() == old(self).cache_of().cap(),
            final(self).cache_of().fetcher_of() == old(self).cache_of().fetcher_of(),
            final(self).pending() == after_resolve(
                old(self).pending(),
                ChunkKey { file_id, chunk_index },
            ),
            !pending_has(final(self).pending(), ChunkKey { file_id, chunk_index }),
            ({
                let key = ChunkKey { file_id, chunk_index };
                let cached = old(self).cache_of().recency();
                if has_key(cached, key) {
                    r matches Ok(c) && c.key == key && c.data@ == data_of(cached, key)
                        && final(self).cache_of().recency() == after_access(cached, key)
                } else {
                    match fetch_result(outcomes@, old(self).cache_of().fetcher_of().budget as int) {
                        Ok(d) => r matches Ok(c) && c.key == key && c.data@ == d
                            && final(self).cache_of().recency() == after_insert(
                            cached,
                            (key, d),
                            old(self).cache_of().cap(),
                        ),
                        Err(e) => r == Result::<Chunk, FetchError>::Err(e)
                            && final(self).cache_of().recency() == cached,
                    }
                }
            }),
    {
        let r = self.cache.get_or_fetch(file_id, chunk_index, outcomes);
        let out = self.resolve(file_id, chunk_index, r);
        out
    }
}

/// Resolving removes exactly the record of `key`: any other key's presence
/// is untouched, and `key` itself is no longer in flight.
pub proof fn lemma_pending_has_after_resolve(s: Seq<Pending>, key: ChunkKey, k2: ChunkKey)
    requires
        pending_unique(s),
    ensures
        pending_has(after_resolve(s, key), k2) == (k2 != key && pending_has(s, k2)),
{
    if pending_has(s, key) {
        let i = pending_index(s, key);
        assert(0 <= i < s.len() && s[i].key == key);
        let t = s.remove(i);
        if k2 != key && pending_has(s, k2) {
            let w = choose|w: int| 0 <= w < s.len() && s[w].key == k2;
            if w < i {
                assert(t[w] == s[w]);
            } else {
                assert(t[w - 1] == s[w]);
            }
        }
        if pending_has(t, k2) {
            let w = pending_index(t, k2);
            assert(t[w] == if w < i {
                s[w]
            } else {
                s[w + 1]
            });
            if k2 == key {
                assert(s[if w < i {
                    w
                } else {
                    w + 1
                }].key == s[i].key);
            }
        }
    }
}

/// Presence after a push: the pushed key joins, the rest stay.
pub proof fn lemma_pending_has_push(s: Seq<Pending>, p: Pending, k2: ChunkKey)
    ensures
        pending_has(s.push(p), k2) == (pending_has(s, k2) || p.key == k2),
{
    if pending_has(s, k2) {
        let w = choose|w: int| 0 <= w < s.len() && s[w].key == k2;
        assert(s.push(p)[w].key == k2);
    }
    if p.key == k2 {
        assert(s.push(p)[s.len() as int].key == k2);
    }
    if pending_has(s.push(p), k2) {
        let w = pending_index(s.push(p), k2);
        if w < s.len() {
            assert(s[w].key == k2);
        }
    }
}

/// An owner's record, created by its `begin_get` and removed by its
/// `resolve`, leaves the in-flight records as they were.
pub proof fn lemma_owner_roundtrip(s: Seq<Pending>, key: ChunkKey)
    requires
        pending_unique(s),
        !pending_has(s, key),
    ensures
        after_resolve(s.push(Pending { key, waiters: 0, queued: false }), key) == s,
{
    let p = Pending { key, waiters: 0, queued: false };
    let pushed = s.push(p);
    assert(pushed[s.len() as int].key == key);
    let w = pending_index(pushed, key);
    assert(0 <= w < pushed.len() && pushed[w].key == key);
    if w < s.len() {
        assert(s[w].key == key);
    }
    assert(w == s.len());
    assert(pushed.remove(s.len() as int) =~= s);
}

/// Bumping the waiter count of `key`'s record and then resolving it
/// removes exactly that record.
pub proof fn lemma_waiter_roundtrip(s: Seq<Pending>, key: ChunkKey, repl: Pending)
    requires
        pending_unique(s),
        pending_has(s, key),
        repl.key == key,
    ensures
        after_resolve(s.update(pending_index(s, key), repl), key) == s.remove(
            pending_index(s, key),
        ),
{
    let i = pending_index(s, key);
    assert(0 <= i < s.len() && s[i].key == key);
    let u = s.update(i, repl);
    assert(u[i].key == key);
    let w = pending_index(u, key);
    assert(0 <= w < u.len() && u[w].key == key);
    if w != i {
        assert(u[w].key == s[w].key);
        assert(s[w].key != s[i].key);
    }
    assert(u.remove(i) =~= s.remove(i));
}

/// Dedup law: a well-formed dispatcher never holds two in-flight records
/// for one key — concurrent callers for the same chunk share one fetch.
pub proof fn lemma_at_most_one_inflight(d: Dispatcher, i: int, j: int)
    requires
        d.wf(),
        0 <= i < j < d.pending().len(),
    ensures
        d.pending()[i].key != d.pending()[j].key,
{
}

proof fn lemma_queued_count_push(s: Seq<Pending>, p: Pending)
    ensures
        queued_count(s.push(p)) == queued_count(s) + if p.queued {
            1int
        } else {
            0int
        },
{
    assert(s.push(p).drop_last() =~= s);
    assert(s.push(p).last() == p);
}

proof fn lemma_queued_count_remove(s: Seq<Pending>, i: int)
    requires
        0 <= i < s.len(),
    ensures
        queued_count(s.remove(i)) == queued_count(s) - if s[i].queued {
            1int
        } else {
            0int
        },
    decreases s.len(),
{
    if i == s.len() - 1 {
        assert(s.remove(i) =~= s.drop_last());
    } else {
        let t = s.remove(i);
        assert(t.drop_last() =~= s.drop_last().remove(i));
        assert(t.last() == s.last());
        lemma_queued_count_remove(s.drop_last(), i);
        assert(s.drop_last()[i] == s[i]);
    }
}

proof fn lemma_queued_count_update(s: Seq<Pending>, i: int, p: Pending)
    requires
        0 <= i < s.len(),
        p.queued == s[i].queued,
    ensures
        queued_count(s.update(i, p)) == queued_count(s),
    decreases s.len(),
{
    if i == s.len() - 1 {
        assert(s.update(i, p).drop_last() =~= s.drop_last());
        assert(s.update(i, p).last() == p);
    } else {
        let t = s.update(i, p);
        assert(t.drop_last() =~= s.drop_last().update(i, p));
        assert(t.last() == s.last());
        assert(s.drop_last()[i] == s[i]);
        lemma_queued_count_update(s.drop_last(), i, p);
    }
}

proof fn lemma_unique_update_same_key(s: Seq<Pending>, i: int, p: Pending)
    requires
        pending_unique(s),
        0 <= i < s.len(),
        p.key == s[i].key,
    ensures
        pending_unique(s.update(i, p)),
{
    let t = s.update(i, p);
    assert forall|a: int, b: int| 0 <= a < b < t.len() implies t[a].key != t[b].key by {
        assert(t[a].key == s[a].key);
        assert(t[b].key == s[b].key);
    }
}

proof fn lemma_unique_remove(s: Seq<Pending>, i: int)
    requires
        pending_unique(s),
        0 <= i < s.len(),
    ensures
        pending_unique(s.remove(i)),
{
    let t = s.remove(i);
    assert forall|a: int, b: int| 0 <= a < b < t.len() implies t[a].key != t[b].key by {
        assert(t[a] == if a < i {
            s[a]
        } else {
            s[a + 1]
        });
        assert(t[b] == if b < i {
            s[b]
        } else {
            s[b + 1]
        });
    }
}

proof fn lemma_removed_key_gone(s: Seq<Pending>, i: int)
    requires
        pending_unique(s),
        0 <= i < s.len(),
    ensures
        !pending_has(s.remove(i), s[i].key),
{
    let t = s.remove(i);
    assert forall|a: int| 0 <= a < t.len() implies t[a].key != s[i].key by {
        assert(t[a] == if a < i {
            s[a]
        } else {
            s[a + 1]
        });
    }
}

} // verus!
