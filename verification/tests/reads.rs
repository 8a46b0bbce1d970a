//! Tests of the read path end to end: alignment, byte-exact assembly, and
//! speculative scheduling behind demand reads.

use chunkpipe::chunk::{ChunkKey, StoreError, StoreOutcome};
use chunkpipe::layout::{chunk_index, chunk_span};
use chunkpipe::prefetch::Prefetcher;

/// A store of known content: byte `i` is a small deterministic pattern.
fn content(len: usize) -> Vec<u8> {
    let mut v = Vec::with_capacity(len);
    for i in 0..len {
        v.push((i % 251) as u8);
    }
    v
}

fn transients(n: usize) -> Vec<StoreOutcome> {
    let mut v = Vec::new();
    for _ in 0..n {
        v.push(StoreOutcome::Failed(StoreError::Transient));
    }
    v
}

#[test]
fn spans_cover_exactly_the_touched_chunks() {
    // byte 4199 falls in chunk 1, so [4000, 4200) touches {0, 1}
    assert_eq!(chunk_span(4000, 200, 4096), (0, 1));
    assert_eq!(chunk_index(4199, 4096), 1);
    // a chunk-aligned read stays within one chunk
    assert_eq!(chunk_span(0, 4096, 4096), (0, 0));
    assert_eq!(chunk_span(4096, 1, 4096), (1, 1));
    // one byte on each side of a boundary
    assert_eq!(chunk_span(4095, 2, 4096), (0, 1));
    // a read spanning many chunks
    assert_eq!(chunk_span(1000, 9000, 1000), (1, 9));
}

#[test]
fn scenario_read_touches_assembles_and_schedules() {
    // chunk_size 4096, preload 2; read(file 7, offset 4000, length 200)
    let store = content(4200);
    let mut p = Prefetcher::build(3, 8, 4, 2, 4096);
    let out = p.read(&store, 7, 4000, 200);
    // returns bytes [4000, 4200) assembled from chunks {0, 1}
    assert_eq!(out.data, store[4000..4200].to_vec());
    assert!(p.dispatcher.cached(7, 0));
    assert!(p.dispatcher.cached(7, 1));
    // and schedules speculative fetches for chunks {2, 3} of file 7
    assert_eq!(
        out.scheduled,
        vec![
            ChunkKey { file_id: 7, chunk_index: 2 },
            ChunkKey { file_id: 7, chunk_index: 3 },
        ]
    );
    // the read returned while the speculative chunks are still in flight,
    // not fetched
    assert!(p.dispatcher.is_inflight(7, 2));
    assert!(p.dispatcher.is_inflight(7, 3));
    assert!(!p.dispatcher.cached(7, 2));
    assert!(!p.dispatcher.cached(7, 3));
}

#[test]
fn reads_reproduce_the_backing_store_exactly() {
    let store = content(10_000);
    let mut p = Prefetcher::build(3, 16, 4, 0, 1000);
    // cross-chunk, aligned, single-byte, head and tail reads
    for &(off, len) in &[
        (0u64, 1000u64),
        (500, 1500),
        (999, 2),
        (0, 1),
        (9_999, 1),
        (0, 10_000),
        (2_500, 5_000),
    ] {
        let out = p.read(&store, 1, off, len);
        assert_eq!(out.data, store[off as usize..(off + len) as usize].to_vec());
        assert!(out.scheduled.is_empty());
    }
    // a second pass is served from cache and stays byte-exact
    let out = p.read(&store, 1, 500, 1500);
    assert_eq!(out.data, store[500..2000].to_vec());
}

#[test]
fn empty_read_returns_nothing_and_schedules_nothing() {
    let store = content(100);
    let mut p = Prefetcher::build(3, 4, 2, 2, 16);
    let out = p.read(&store, 1, 50, 0);
    assert!(out.data.is_empty());
    assert!(out.scheduled.is_empty());
}

#[test]
fn speculative_failure_never_fails_a_read() {
    let store = content(4200);
    let mut p = Prefetcher::build(3, 8, 4, 2, 4096);
    let first = p.read(&store, 7, 4000, 200);
    assert_eq!(first.scheduled.len(), 2);
    // a worker picks the first speculative job up and the store fails it:
    // discarded silently, nothing cached, nothing in flight
    let failing = transients(3);
    assert!(p.dispatcher.finish_speculative(7, 2, &failing).is_err());
    assert!(!p.dispatcher.cached(7, 2));
    assert!(!p.dispatcher.is_inflight(7, 2));
    // demand reads are untouched by the speculative failure
    let again = p.read(&store, 7, 4000, 200);
    assert_eq!(again.data, store[4000..4200].to_vec());
    // the failed chunk is scheduled afresh; the still-pending one is not
    assert_eq!(again.scheduled, vec![ChunkKey { file_id: 7, chunk_index: 2 }]);
    assert!(p.dispatcher.is_inflight(7, 3));
}

#[test]
fn speculative_work_completes_into_the_cache() {
    let store = content(4200);
    let mut p = Prefetcher::build(3, 8, 4, 2, 4096);
    p.read(&store, 7, 0, 100);
    // the worker serves the queued job for chunk 1 from the store
    let mut answer = Vec::new();
    for _ in 0..3 {
        answer.push(StoreOutcome::Data(store[4096..4200].to_vec()));
    }
    let got = p.dispatcher.finish_speculative(7, 1, &answer).unwrap();
    assert_eq!(got.data, store[4096..4200].to_vec());
    assert!(p.dispatcher.cached(7, 1));
    // the next read over chunk 1 is a pure cache hit
    let out = p.read(&store, 7, 4100, 100);
    assert_eq!(out.data, store[4100..4200].to_vec());
}

#[test]
fn bounded_queue_drops_excess_speculative_chunks() {
    // one worker: of the two preload candidates only one fits the queue
    let store = content(10_000);
    let mut p = Prefetcher::build(3, 8, 1, 2, 1000);
    let out = p.read(&store, 1, 0, 500);
    assert_eq!(out.scheduled, vec![ChunkKey { file_id: 1, chunk_index: 1 }]);
    assert!(p.dispatcher.is_inflight(1, 1));
    assert!(!p.dispatcher.is_inflight(1, 2));
}

#[test]
fn demand_read_overtakes_a_pending_speculative_chunk() {
    let store = content(10_000);
    let mut p = Prefetcher::build(3, 8, 2, 1, 1000);
    let first = p.read(&store, 1, 0, 500);
    assert_eq!(first.scheduled, vec![ChunkKey { file_id: 1, chunk_index: 1 }]);
    assert!(p.dispatcher.is_inflight(1, 1));
    // a read demands the chunk while its speculative fetch is in flight:
    // it is served, byte-exact, and the in-flight record is resolved
    let out = p.read(&store, 1, 1000, 500);
    assert_eq!(out.data, store[1000..1500].to_vec());
    assert!(!p.dispatcher.is_inflight(1, 1));
    assert!(p.dispatcher.cached(1, 1));
}

#[test]
fn saturated_cache_still_serves_exact_bytes() {
    // capacity 1: chunks are evicted as soon as the next one lands
    let store = content(5_000);
    let mut p = Prefetcher::build(3, 1, 2, 0, 1000);
    let out = p.read(&store, 1, 500, 3000);
    assert_eq!(out.data, store[500..3500].to_vec());
    // only the most recently used chunk can remain
    let kept = (0..5).filter(|&i| p.dispatcher.cached(1, i)).count();
    assert!(kept <= 1);
}
