//! Tests of the three lower layers: the Fetcher's retry policy, the
//! MemoryCache's LRU eviction, and the Dispatcher's deduplication.

use chunkpipe::cache::MemoryCache;
use chunkpipe::chunk::{Chunk, ChunkKey, FetchError, StoreError, StoreOutcome};
use chunkpipe::dispatch::{Dispatcher, GetTicket};
use chunkpipe::fetch::{Fetcher, FetchStep, BACKOFF_BASE_MS, BACKOFF_CAP_MS};

fn key(file_id: u64, chunk_index: u64) -> ChunkKey {
    ChunkKey { file_id, chunk_index }
}

fn chunk(file_id: u64, chunk_index: u64, data: &[u8]) -> Chunk {
    Chunk { key: key(file_id, chunk_index), data: data.to_vec() }
}

fn transients(n: usize) -> Vec<StoreOutcome> {
    let mut v = Vec::new();
    for _ in 0..n {
        v.push(StoreOutcome::Failed(StoreError::Transient));
    }
    v
}

#[test]
fn backoff_doubles_and_caps() {
    assert_eq!(Fetcher::backoff_delay(1), BACKOFF_BASE_MS);
    assert_eq!(Fetcher::backoff_delay(2), 200);
    assert_eq!(Fetcher::backoff_delay(3), 400);
    assert_eq!(Fetcher::backoff_delay(7), 6400);
    assert_eq!(Fetcher::backoff_delay(8), BACKOFF_CAP_MS);
    assert_eq!(Fetcher::backoff_delay(20), BACKOFF_CAP_MS);
}

#[test]
fn step_retries_transient_with_backoff() {
    let mut f = Fetcher::new(3);
    match f.step(StoreOutcome::Failed(StoreError::Transient)) {
        FetchStep::RetryAfter { delay_ms } => assert_eq!(delay_ms, 100),
        _ => panic!("expected a retry"),
    }
    match f.step(StoreOutcome::Failed(StoreError::Transient)) {
        FetchStep::RetryAfter { delay_ms } => assert_eq!(delay_ms, 200),
        _ => panic!("expected a retry"),
    }
    match f.step(StoreOutcome::Failed(StoreError::Transient)) {
        FetchStep::Done(Err(FetchError::Exhausted)) => {}
        _ => panic!("expected exhaustion at the budget"),
    }
}

#[test]
fn retry_succeeds_within_budget() {
    // fails transiently twice, then answers: within a budget of 3
    let mut outcomes = transients(2);
    outcomes.push(StoreOutcome::Data(b"payload".to_vec()));
    let f = Fetcher::new(3);
    assert_eq!(f.run(&outcomes).unwrap(), b"payload".to_vec());
}

#[test]
fn retry_gives_up_beyond_budget() {
    // the same store, but a budget of 2: exhausted before the answer
    let mut outcomes = transients(2);
    outcomes.push(StoreOutcome::Data(b"payload".to_vec()));
    let f = Fetcher::new(2);
    assert_eq!(f.run(&outcomes).unwrap_err(), FetchError::Exhausted);
}

#[test]
fn permanent_errors_fail_immediately() {
    let mut outcomes = vec![StoreOutcome::Failed(StoreError::Auth)];
    outcomes.push(StoreOutcome::Data(b"never".to_vec()));
    let f = Fetcher::new(2);
    assert_eq!(f.run(&outcomes).unwrap_err(), FetchError::Auth);

    let mut outcomes = vec![StoreOutcome::Failed(StoreError::NotFound)];
    outcomes.push(StoreOutcome::Data(b"never".to_vec()));
    assert_eq!(f.run(&outcomes).unwrap_err(), FetchError::NotFound);
}

#[test]
fn lru_evicts_least_recently_used_first() {
    let mut cache = MemoryCache::new(Fetcher::new(1), 2);
    cache.insert(chunk(1, 0, b"aa"));
    cache.insert(chunk(1, 1, b"bb"));
    // touch the older entry: it becomes most recently used
    assert_eq!(cache.lookup(1, 0).unwrap().data, b"aa".to_vec());
    // a third insert evicts the strictly older unaccessed entry, not the
    // one accessed just before the insertion
    cache.insert(chunk(1, 2, b"cc"));
    assert_eq!(cache.count(), 2);
    assert!(cache.contains(1, 0));
    assert!(!cache.contains(1, 1));
    assert!(cache.contains(1, 2));
}

#[test]
fn insert_replaces_entry_with_same_key() {
    let mut cache = MemoryCache::new(Fetcher::new(1), 4);
    cache.insert(chunk(1, 0, b"old"));
    cache.insert(chunk(1, 0, b"new"));
    assert_eq!(cache.count(), 1);
    assert_eq!(cache.lookup(1, 0).unwrap().data, b"new".to_vec());
}

#[test]
fn lookup_miss_leaves_cache_unchanged() {
    let mut cache = MemoryCache::new(Fetcher::new(1), 2);
    assert!(cache.lookup(9, 9).is_none());
    assert_eq!(cache.count(), 0);
}

#[test]
fn get_or_fetch_prefers_cache_over_store() {
    let mut cache = MemoryCache::new(Fetcher::new(2), 2);
    cache.insert(chunk(1, 0, b"cached"));
    // the store would answer differently; a hit never consults it
    let outcomes = vec![
        StoreOutcome::Data(b"fresh".to_vec()),
        StoreOutcome::Data(b"fresh".to_vec()),
    ];
    let got = cache.get_or_fetch(1, 0, &outcomes).unwrap();
    assert_eq!(got.data, b"cached".to_vec());
}

#[test]
fn get_or_fetch_caches_fetched_chunk() {
    let mut cache = MemoryCache::new(Fetcher::new(2), 2);
    let outcomes = vec![
        StoreOutcome::Failed(StoreError::Transient),
        StoreOutcome::Data(b"fetched".to_vec()),
    ];
    let got = cache.get_or_fetch(7, 3, &outcomes).unwrap();
    assert_eq!(got.data, b"fetched".to_vec());
    assert!(cache.contains(7, 3));
}

#[test]
fn failed_fetch_is_not_cached() {
    let mut cache = MemoryCache::new(Fetcher::new(2), 2);
    let failing = transients(2);
    assert_eq!(cache.get_or_fetch(7, 3, &failing).unwrap_err(), FetchError::Exhausted);
    assert!(!cache.contains(7, 3));
    // the next call for the same key starts a fresh attempt and succeeds
    let mut recovering = transients(1);
    recovering.push(StoreOutcome::Data(b"late".to_vec()));
    assert_eq!(cache.get_or_fetch(7, 3, &recovering).unwrap().data, b"late".to_vec());
    assert!(cache.contains(7, 3));
}

#[test]
fn concurrent_callers_share_one_fetch() {
    let mut d = Dispatcher::new(MemoryCache::new(Fetcher::new(2), 4), 2);
    // three callers race for the same missing chunk: exactly one owner
    match d.begin_get(5, 0) {
        GetTicket::Owner => {}
        _ => panic!("first caller must own the fetch"),
    }
    match d.begin_get(5, 0) {
        GetTicket::Waiter => {}
        _ => panic!("second caller must wait, not fetch"),
    }
    match d.begin_get(5, 0) {
        GetTicket::Waiter => {}
        _ => panic!("third caller must wait, not fetch"),
    }
    assert!(d.is_inflight(5, 0));
    // the owner's one fetch resolves everyone with identical content
    let delivered = d.fulfill(chunk(5, 0, b"shared"));
    assert_eq!(delivered.data, b"shared".to_vec());
    assert!(!d.is_inflight(5, 0));
    // late callers now hit the cache
    match d.begin_get(5, 0) {
        GetTicket::Ready(c) => assert_eq!(c.data, b"shared".to_vec()),
        _ => panic!("resolved chunk must be ready"),
    }
}

#[test]
fn dispatcher_failure_leaves_no_trace() {
    let mut d = Dispatcher::new(MemoryCache::new(Fetcher::new(2), 4), 2);
    let failing = transients(2);
    assert_eq!(d.get(5, 1, &failing).unwrap_err(), FetchError::Exhausted);
    // no cache entry, no lingering in-flight record
    assert!(!d.cached(5, 1));
    assert!(!d.is_inflight(5, 1));
    // a later call triggers a new fetch and can succeed
    let mut recovering = transients(1);
    recovering.push(StoreOutcome::Data(b"ok".to_vec()));
    assert_eq!(d.get(5, 1, &recovering).unwrap().data, b"ok".to_vec());
    assert!(d.cached(5, 1));
}

#[test]
fn dispatcher_get_uses_cache_first() {
    let mut d = Dispatcher::new(MemoryCache::new(Fetcher::new(1), 4), 2);
    let first = vec![StoreOutcome::Data(b"abc".to_vec())];
    assert_eq!(d.get(5, 2, &first).unwrap().data, b"abc".to_vec());
    // the store now fails; the cached chunk is served without a fetch
    let failing = vec![StoreOutcome::Failed(StoreError::Auth)];
    assert_eq!(d.get(5, 2, &failing).unwrap().data, b"abc".to_vec());
}

#[test]
fn speculative_submissions_respect_the_bounded_queue() {
    // one worker: one queue slot for speculative jobs
    let mut d = Dispatcher::new(MemoryCache::new(Fetcher::new(2), 4), 1);
    assert!(d.offer_speculative(5, 10));
    assert_eq!(d.queued_jobs(), 1);
    // the same key again: already in flight, skipped
    assert!(!d.offer_speculative(5, 10));
    // another key: the queue is full, dropped rather than queued
    assert!(!d.offer_speculative(5, 11));
    assert_eq!(d.queued_jobs(), 1);
    // a failed speculative job is discarded silently and frees its slot
    let failing = transients(2);
    assert!(d.finish_speculative(5, 10, &failing).is_err());
    assert!(!d.cached(5, 10));
    assert!(!d.is_inflight(5, 10));
    assert_eq!(d.queued_jobs(), 0);
    // the key may be offered again: failures are never remembered
    assert!(d.offer_speculative(5, 10));
}

#[test]
fn demand_get_resolves_a_pending_speculative_fetch() {
    let mut d = Dispatcher::new(MemoryCache::new(Fetcher::new(2), 4), 2);
    assert!(d.offer_speculative(9, 0));
    // a demand read arrives for the same chunk: it waits on the one
    // in-flight fetch rather than starting a second
    let outcomes = vec![
        StoreOutcome::Data(b"race".to_vec()),
        StoreOutcome::Data(b"race".to_vec()),
    ];
    assert_eq!(d.get(9, 0, &outcomes).unwrap().data, b"race".to_vec());
    assert!(!d.is_inflight(9, 0));
    assert!(d.cached(9, 0));
    assert_eq!(d.queued_jobs(), 0);
}

#[test]
fn speculative_jobs_are_skipped_for_cached_chunks() {
    let mut d = Dispatcher::new(MemoryCache::new(Fetcher::new(1), 4), 2);
    let outcomes = vec![StoreOutcome::Data(b"here".to_vec())];
    d.get(5, 3, &outcomes).unwrap();
    assert!(d.cached(5, 3));
    assert!(!d.offer_speculative(5, 3));
    assert_eq!(d.queued_jobs(), 0);
}
