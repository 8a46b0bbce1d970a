//! A chunked cache and prefetch pipeline for serving arbitrary-offset file
//! reads over a store that only answers ranged byte fetches.
//!
//! Four layers, each wrapping the next and adding one concern:
//! a [`fetch::Fetcher`] retries one raw ranged read with bounded backoff;
//! a [`cache::MemoryCache`] keeps chunks in bounded memory with
//! least-recently-used eviction; a [`dispatch::Dispatcher`] deduplicates
//! concurrent fetches of the same chunk; a [`prefetch::Prefetcher`] turns a
//! byte-range read into the chunk range it covers and schedules a bounded run
//! of speculative follow-up chunks.

pub mod cache;
pub mod chunk;
pub mod dispatch;
pub mod fetch;
pub mod layout;
pub mod prefetch;
