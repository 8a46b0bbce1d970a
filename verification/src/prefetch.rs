//! The Prefetcher: the pipeline's entry point. Translates a byte-range
//! read into the chunk range it covers, fetches those chunks through the
//! Dispatcher, assembles the requested bytes, and then schedules a bounded
//! run of subsequent chunks as speculative, non-blocking work.

use vstd::prelude::*;
use vstd::arithmetic::div_mod::{
    lemma_fundamental_div_mod, lemma_mod_division_less_than_divisor,
};
use crate::cache::{after_access, after_insert, data_of, has_key, index_of_key, Entry, MemoryCache};
use crate::chunk::{append_range, copy_range, Chunk, ChunkKey};
use crate::dispatch::{
    after_resolve, lemma_owner_roundtrip, lemma_pending_has_after_resolve, lemma_pending_has_push,
    lemma_waiter_roundtrip, pending_has, pending_index, queued_count, Dispatcher, GetTicket,
    Pending,
};
use crate::fetch::Fetcher;
use crate::layout::{chunk_bytes, chunk_span, index_of_byte};

verus! {

/// The cache holds only true chunk data of the file `file_id` whose full
/// content is `content`: every cached entry for that file carries exactly
/// the bytes of its chunk.
pub open spec fn coherent(cache: Seq<Entry>, file_id: u64, content: Seq<u8>, cs: int) -> bool {
    forall|i: int|
        0 <= i < cache.len() && (#[trigger] cache[i]).0.file_id == file_id ==> cache[i].1
            == chunk_bytes(content, cache[i].0.chunk_index as int, cs)
}

/// Whether `key` lies in the chunk range that a read of
/// `[offset, offset + length)` demands.
pub open spec fn demanded(
    file_id: u64,
    offset: u64,
    length: u64,
    cs: int,
    key: ChunkKey,
) -> bool {
    &&& length > 0
    &&& key.file_id == file_id
    &&& index_of_byte(offset as int, cs) <= key.chunk_index as int <= index_of_byte(
        offset + length - 1,
        cs,
    )
}

/// What one read call returns: the requested bytes, and the keys of the
/// speculative fetches it scheduled behind them.
pub struct ReadOutcome {
    pub data: Vec<u8>,
    pub scheduled: Vec<ChunkKey>,
}

/// The pipeline's top layer, wrapping the Dispatcher.
pub struct Prefetcher {
    /// The dedup layer beneath; beneath it the cache and the fetcher.
    pub dispatcher: Dispatcher,
    /// Bytes per chunk, fixed for the lifetime of the pipeline.
    pub chunk_size: u64,
    /// How many chunks past the demanded range each read schedules.
    pub preload: u64,
}

impl Prefetcher {
    /// Well-formed: the layers beneath are, and chunks are not empty.
    pub open spec fn wf(self) -> bool {
        &&& self.dispatcher.wf()
        &&& self.chunk_size >= 1
    }

    /// A prefetcher over `dispatcher` that reads chunks of `chunk_size`
    /// bytes and schedules `preload` speculative chunks per read.
    pub fn new(dispatcher: Dispatcher, preload: u64, chunk_size: u64) -> (p: Prefetcher)
        requires
            dispatcher.wf(),
            chunk_size >= 1,
        ensures
            p.wf(),
            p.dispatcher == dispatcher,
            p.chunk_size == chunk_size,
            p.preload == preload,
    {
        Prefetcher { dispatcher, chunk_size, preload }
    }

    /// Builds the whole pipeline, each layer wrapping the next: a Fetcher
    /// allowing `budget` attempts per fetch, a MemoryCache of `capacity`
    /// chunks over it, a Dispatcher with `threads` workers over that, and
    /// the Prefetcher on top.
    pub fn build(budget: u64, capacity: usize, threads: usize, preload: u64, chunk_size: u64)
        -> (p: Prefetcher)
        requires
            budget >= 1,
            capacity >= 1,
            threads >= 1,
            chunk_size >= 1,
        ensures
            p.wf(),
            p.chunk_size == chunk_size,
            p.preload == preload,
            p.dispatcher.pool_size() == threads,
            p.dispatcher.cache_of().cap() == capacity,
            p.dispatcher.cache_of().fetcher_of().budget == budget,
            p.dispatcher.cache_of().recency() == Seq::<Entry>::empty(),
            p.dispatcher.pending() == Seq::<Pending>::empty(),
    {
        let fetcher = Fetcher::new(budget);
        let cache = MemoryCache::new(fetcher, capacity);
        let dispatcher = Dispatcher::new(cache, threads);
        Prefetcher::new(dispatcher, preload, chunk_size)
    }

    /// The pipeline's entry point: serves the bytes `[offset, offset + length)`
    /// of the file `file_id`, whose full content the store answers ranged
    /// reads from with `content`. The demanded chunks are fetched in index
    /// order through the Dispatcher — cached chunks at once, missing ones by
    /// one fetch each — and the requested sub-ranges are concatenated in
    /// byte order. Afterwards, up to `preload` chunks past the demanded
    /// range are submitted as speculative, non-blocking work: each scheduled
    /// chunk is still in flight, not yet fetched, when the call returns, and
    /// chunks already cached or in flight, and submissions beyond the
    /// pool's bounded queue, are skipped or dropped silently.
    pub fn read(&mut self, content: &Vec<u8>, file_id: u64, offset: u64, length: u64) -> (r:
        ReadOutcome)
        requires
            old(self).wf(),
            offset + length <= content@.len(),
            coherent(
                old(self).dispatcher.cache_of().recency(),
                file_id,
                content@,
                old(self).chunk_size as int,
            ),
            forall|j: int|
                0 <= j < old(self).dispatcher.pending().len() ==> (#[trigger] old(
                    self,
                ).dispatcher.pending()[j]).waiters < u64::MAX,
        ensures
            final(self).wf(),
            final(self).chunk_size == old(self).chunk_size,
            final(self).preload == old(self).preload,
            final(self).dispatcher.pool_size() == old(self).dispatcher.pool_size(),
            final(self).dispatcher.cache_of().cap() == old(self).dispatcher.cache_of().cap(),
            final(self).dispatcher.cache_of().fetcher_of() == old(
                self,
            ).dispatcher.cache_of().fetcher_of(),
            coherent(
                final(self).dispatcher.cache_of().recency(),
                file_id,
                content@,
                old(self).chunk_size as int,
            ),
            r.data@ == content@.subrange(offset as int, offset + length),
            r.scheduled@.len() <= old(self).preload,
            length == 0 ==> r.scheduled@.len() == 0,
            forall|j: int|
                0 <= j < r.scheduled@.len() ==> (#[trigger] r.scheduled@[j]).file_id == file_id
                    && index_of_byte(offset + length - 1, old(self).chunk_size as int)
                    < r.scheduled@[j].chunk_index && r.scheduled@[j].chunk_index <= index_of_byte(
                    offset + length - 1,
                    old(self).chunk_size as int,
                ) + old(self).preload,
            forall|j1: int, j2: int|
                0 <= j1 < j2 < r.scheduled@.len() ==> r.scheduled@[j1].chunk_index
                    < r.scheduled@[j2].chunk_index,
            forall|j: int|
                0 <= j < r.scheduled@.len() ==> pending_has(
                    final(self).dispatcher.pending(),
                    #[trigger] r.scheduled@[j],
                ) && final(self).dispatcher.pending()[pending_index(
                    final(self).dispatcher.pending(),
                    r.scheduled@[j],
                )].queued && !has_key(final(self).dispatcher.cache_of().recency(), r.scheduled@[j]),
            forall|k2: ChunkKey|
                !demanded(file_id, offset, length, old(self).chunk_size as int, k2) ==> pending_has(
                    final(self).dispatcher.pending(),
                    k2,
                ) == (pending_has(old(self).dispatcher.pending(), k2) || r.scheduled@.contains(k2)),
            forall|k2: ChunkKey|
                demanded(file_id, offset, length, old(self).chunk_size as int, k2) && pending_has(
                    final(self).dispatcher.pending(),
                    k2,
                ) ==> pending_has(old(self).dispatcher.pending(), k2),
            length > 0 ==> ({
                let last = index_of_byte(offset + length - 1, old(self).chunk_size as int);
                let candidates = if old(self).preload <= u64::MAX - last {
                    old(self).preload as int
                } else {
                    u64::MAX - last
                };
                forall|k2: ChunkKey|
                    k2.file_id == file_id && last < k2.chunk_index <= last + candidates && !(
                    #[trigger] r.scheduled@.contains(k2)) ==> has_key(
                        final(self).dispatcher.cache_of().recency(),
                        k2,
                    ) || pending_has(old(self).dispatcher.pending(), k2) || queued_count(
                        final(self).dispatcher.pending(),
                    ) == old(self).dispatcher.pool_size()
            }),
    {
        let cs = self.chunk_size;
        let ghost cs_i = cs as int;
        if length == 0 {
            let data: Vec<u8> = Vec::new();
            let scheduled: Vec<ChunkKey> = Vec::new();
            proof {
                assert(data@ =~= content@.subrange(offset as int, offset as int));
            }
            return ReadOutcome { data, scheduled };
        }
        let cl: usize = content.len();
        proof {
            assert(content@.len() == cl);
            assert(offset + length <= u64::MAX);
        }
        let end: u64 = offset + length;
        let clen: u64 = cl as u64;
        let (first, last) = chunk_span(offset, length, cs);
        proof {
            lemma_fundamental_div_mod(offset as int, cs_i);
            lemma_mod_division_less_than_divisor(offset as int, cs_i);
            lemma_fundamental_div_mod(end - 1, cs_i);
            lemma_mod_division_less_than_divisor(end - 1, cs_i);
            assert(cs_i * first <= offset < cs_i * first + cs_i);
            assert(cs_i * last <= end - 1 < cs_i * last + cs_i);
        }
        let ghost pend0 = self.dispatcher.pending();
        let mut data: Vec<u8> = Vec::new();
        let mut i: u64 = first;
        proof {
            assert(data@ =~= content@.subrange(offset as int, offset as int));
        }
        while i <= last
            invariant
                self.wf(),
                self.chunk_size == cs,
                cs_i == cs as int,
                cs >= 1,
                self.preload == old(self).preload,
                self.dispatcher.pool_size() == old(self).dispatcher.pool_size(),
                self.dispatcher.cache_of().cap() == old(self).dispatcher.cache_of().cap(),
                self.dispatcher.cache_of().fetcher_of() == old(
                    self,
                ).dispatcher.cache_of().fetcher_of(),
                coherent(self.dispatcher.cache_of().recency(), file_id, content@, cs_i),
                1 <= length,
                end == offset + length,
                end <= content@.len(),
                clen == content@.len(),
                content@.len() <= usize::MAX,
                first == index_of_byte(offset as int, cs_i),
                last == index_of_byte(end - 1, cs_i),
                first <= i <= last + 1,
                cs_i * first <= offset < cs_i * first + cs_i,
                cs_i * last <= end - 1 < cs_i * last + cs_i,
                data@ == content@.subrange(
                    offset as int,
                    if i == first {
                        offset as int
                    } else if i <= last {
                        cs_i * i
                    } else {
                        end as int
                    },
                ),
                pend0 == old(self).dispatcher.pending(),
                forall|k2: ChunkKey|
                    !demanded(file_id, offset, length, cs_i, k2) ==> pending_has(
                        self.dispatcher.pending(),
                        k2,
                    ) == pending_has(pend0, k2),
                forall|k2: ChunkKey|
                    pending_has(self.dispatcher.pending(), k2) ==> pending_has(pend0, k2),
                forall|j: int|
                    0 <= j < self.dispatcher.pending().len() ==> (
                    #[trigger] self.dispatcher.pending()[j]).waiters < u64::MAX,
            decreases last - i + 1,
        {
            proof {
                let ii = i as int;
                let ff = first as int;
                let ll = last as int;
                assert(cs_i * ii <= cs_i * ll) by (nonlinear_arith)
                    requires
                        ii <= ll,
                        cs_i >= 1,
                ;
                assert(cs_i * (ii + 1) == cs_i * ii + cs_i) by (nonlinear_arith);
                assert(cs_i * (ff + 1) == cs_i * ff + cs_i) by (nonlinear_arith);
                assert(cs_i * (ll + 1) == cs_i * ll + cs_i) by (nonlinear_arith);
                assert(ff < ii ==> cs_i * (ff + 1) <= cs_i * ii) by (nonlinear_arith)
                    requires
                        cs_i >= 1,
                ;
                assert((i as int) * (cs as int) == cs_i * ii);
            }
            let start: u64 = i * cs;
            let gl: u64 = if offset > start {
                offset
            } else {
                start
            };
            let gh: u64 = if end - start > cs {
                start + cs
            } else {
                end
            };
            let hf: u64 = if clen - start > cs {
                start + cs
            } else {
                clen
            };
            proof {
                assert(start == cs_i * i);
                assert(start <= end - 1);
                assert(gl as int == if i == first {
                    offset as int
                } else {
                    cs_i * i
                });
                assert(gl <= gh && gh <= hf && hf <= clen);
                assert(gh as int - start as int <= hf as int - start as int);
                assert(chunk_bytes(content@, i as int, cs_i) == content@.subrange(
                    start as int,
                    hf as int,
                ));
            }
            let key = ChunkKey { file_id, chunk_index: i };
            let ghost pend_a = self.dispatcher.pending();
            let ghost cache_a = self.dispatcher.cache_of().recency();
            let cdata: Vec<u8>;
            match self.dispatcher.begin_get(file_id, i) {
                GetTicket::Ready(c) => {
                    proof {
                        lemma_data_of_coherent(cache_a, file_id, content@, cs_i, key);
                        lemma_coherent_after_access(cache_a, file_id, content@, cs_i, key);
                    }
                    cdata = c.data;
                },
                GetTicket::Owner => {
                    let cd = copy_range(content, start as usize, hf as usize);
                    proof {
                        lemma_pending_has_push(pend_a, Pending { key, waiters: 0, queued: false }, key);
                    }
                    let c = self.dispatcher.fulfill(Chunk { key, data: cd });
                    proof {
                        lemma_owner_roundtrip(pend_a, key);
                        lemma_coherent_after_insert(
                            cache_a,
                            file_id,
                            content@,
                            cs_i,
                            (key, cd@),
                            self.dispatcher.cache_of().cap(),
                        );
                    }
                    cdata = c.data;
                },
                GetTicket::Waiter => {
                    let cd = copy_range(content, start as usize, hf as usize);
                    let ghost idx = pending_index(pend_a, key);
                    let ghost p = pend_a[idx];
                    let ghost bumped = Pending {
                        key: p.key,
                        waiters: (p.waiters + 1) as u64,
                        queued: p.queued,
                    };
                    proof {
                        assert(pend_a.update(idx, bumped)[idx].key == key);
                    }
                    let c = self.dispatcher.fulfill(Chunk { key, data: cd });
                    proof {
                        lemma_waiter_roundtrip(pend_a, key, bumped);
                        assert forall|k2: ChunkKey|
                            pending_has(self.dispatcher.pending(), k2) == (k2 != key
                                && pending_has(pend_a, k2)) by {
                            lemma_pending_has_after_resolve(pend_a, key, k2);
                        }
                        assert forall|j: int|
                            0 <= j < self.dispatcher.pending().len() implies (
                        #[trigger] self.dispatcher.pending()[j]).waiters < u64::MAX by {
                            let t = self.dispatcher.pending();
                            assert(t == pend_a.remove(idx));
                            assert(t[j] == if j < idx {
                                pend_a[j]
                            } else {
                                pend_a[j + 1]
                            });
                        }
                        lemma_coherent_after_insert(
                            cache_a,
                            file_id,
                            content@,
                            cs_i,
                            (key, cd@),
                            self.dispatcher.cache_of().cap(),
                        );
                    }
                    cdata = c.data;
                },
            }
            proof {
                assert(cdata@ == chunk_bytes(content@, i as int, cs_i));
                assert(cdata@.len() == hf - start);
            }
            append_range(&mut data, &cdata, (gl - start) as usize, (gh - start) as usize);
            proof {
                assert(cdata@.subrange(gl - start, gh - start) =~= content@.subrange(
                    gl as int,
                    gh as int,
                ));
                assert(data@ =~= content@.subrange(offset as int, gh as int));
            }
            i = i + 1;
            proof {
                if i <= last {
                    let ii = i as int;
                    let ll = last as int;
                    assert(cs_i * ii == cs_i * (ii - 1) + cs_i) by (nonlinear_arith);
                    assert(cs_i * ii <= cs_i * ll) by (nonlinear_arith)
                        requires
                            ii <= ll,
                            cs_i >= 1,
                    ;
                    assert(start + cs == cs_i * ii);
                    assert(end > start + cs);
                    assert(gh as int == cs_i * ii);
                } else {
                    assert(start == cs_i * last);
                    assert(end <= start + cs);
                    assert(gh as int == end);
                }
            }
        }
        let ghost pend_mid = self.dispatcher.pending();
        let ghost cache_mid = self.dispatcher.cache_of().recency();
        let mut scheduled: Vec<ChunkKey> = Vec::new();
        let mut k: u64 = 0;
        while k < self.preload && last < u64::MAX - k
            invariant
                self.wf(),
                self.chunk_size == cs,
                self.preload == old(self).preload,
                self.dispatcher.pool_size() == old(self).dispatcher.pool_size(),
                self.dispatcher.cache_of().cap() == old(self).dispatcher.cache_of().cap(),
                self.dispatcher.cache_of().fetcher_of() == old(
                    self,
                ).dispatcher.cache_of().fetcher_of(),
                self.dispatcher.cache_of().recency() == cache_mid,
                k <= old(self).preload,
                scheduled@.len() <= k,
                forall|j: int|
                    0 <= j < scheduled@.len() ==> (#[trigger] scheduled@[j]).file_id == file_id
                        && last < scheduled@[j].chunk_index && scheduled@[j].chunk_index as int
                        <= last + k,
                forall|j1: int, j2: int|
                    0 <= j1 < j2 < scheduled@.len() ==> scheduled@[j1].chunk_index
                        < scheduled@[j2].chunk_index,
                forall|j: int|
                    0 <= j < scheduled@.len() ==> pending_has(
                        self.dispatcher.pending(),
                        #[trigger] scheduled@[j],
                    ) && self.dispatcher.pending()[pending_index(
                        self.dispatcher.pending(),
                        scheduled@[j],
                    )].queued && !has_key(cache_mid, scheduled@[j]),
                forall|k2: ChunkKey|
                    pending_has(self.dispatcher.pending(), k2) == (pending_has(pend_mid, k2)
                        || scheduled@.contains(k2)),
                forall|k2: ChunkKey|
                    k2.file_id == file_id && last < k2.chunk_index <= last + k && !(
                    #[trigger] scheduled@.contains(k2)) ==> has_key(cache_mid, k2) || pending_has(
                        pend_mid,
                        k2,
                    ) || queued_count(self.dispatcher.pending()) == self.dispatcher.pool_size(),
            decreases self.preload - k,
        {
            let cand: u64 = last + 1 + k;
            let ghost pend_b = self.dispatcher.pending();
            let ghost sched_b = scheduled@;
            let acc = self.dispatcher.offer_speculative(file_id, cand);
            let ghost ckey = ChunkKey { file_id, chunk_index: cand };
            if acc {
                scheduled.push(ChunkKey { file_id, chunk_index: cand });
                proof {
                    let p = Pending { key: ckey, waiters: 0, queued: true };
                    let t = self.dispatcher.pending();
                    assert(t == pend_b.push(p));
                    assert forall|j: int|
                        0 <= j < scheduled@.len() implies pending_has(
                        t,
                        #[trigger] scheduled@[j],
                    ) && t[pending_index(t, scheduled@[j])].queued && !has_key(
                        cache_mid,
                        scheduled@[j],
                    ) by {
                        if j < scheduled@.len() - 1 {
                            assert(scheduled@[j] == sched_b[j]);
                            let w = pending_index(pend_b, sched_b[j]);
                            assert(0 <= w < pend_b.len() && pend_b[w].key == sched_b[j]);
                            assert(t[w].key == sched_b[j]);
                            assert(pending_has(t, sched_b[j]));
                            let w2 = pending_index(t, sched_b[j]);
                            assert(0 <= w2 < t.len() && t[w2].key == sched_b[j]);
                            if w2 != w {
                                if w2 < pend_b.len() {
                                    assert(pend_b[w2].key == pend_b[w].key);
                                } else {
                                    assert(t[w2] == p);
                                    assert(sched_b[j].chunk_index <= last + k);
                                }
                            }
                            assert(t[w2].queued);
                        } else {
                            assert(scheduled@[j] == ckey);
                            assert(t[pend_b.len() as int].key == ckey);
                            assert(pending_has(t, ckey));
                            let w2 = pending_index(t, ckey);
                            assert(0 <= w2 < t.len() && t[w2].key == ckey);
                            if w2 < pend_b.len() {
                                assert(pending_has(pend_b, ckey));
                            }
                            assert(t[w2] == p);
                        }
                    }
                    assert forall|k2: ChunkKey|
                        pending_has(t, k2) == (pending_has(pend_mid, k2) || scheduled@.contains(
                            k2,
                        )) by {
                        lemma_pending_has_push(pend_b, p, k2);
                        if scheduled@.contains(k2) {
                            let j = choose|j: int|
                                0 <= j < scheduled@.len() && scheduled@[j] == k2;
                            if j < scheduled@.len() - 1 {
                                assert(sched_b.contains(k2));
                            }
                        }
                        if sched_b.contains(k2) {
                            let j = choose|j: int| 0 <= j < sched_b.len() && sched_b[j] == k2;
                            assert(scheduled@[j] == k2);
                            assert(scheduled@.contains(k2));
                        }
                        if k2 == ckey {
                            assert(scheduled@[scheduled@.len() - 1] == ckey);
                            assert(scheduled@.contains(k2));
                        }
                    }
                }
            }
            k = k + 1;
            proof {
                let cur = self.dispatcher.pending();
                let pool = self.dispatcher.pool_size();
                assert forall|k2: ChunkKey|
                    k2.file_id == file_id && last < k2.chunk_index <= last + k && !(
                    #[trigger] scheduled@.contains(k2)) implies has_key(cache_mid, k2)
                    || pending_has(pend_mid, k2) || queued_count(cur) == pool by {
                    if !has_key(cache_mid, k2) && !pending_has(pend_mid, k2) {
                        assert(!sched_b.contains(k2)) by {
                            if sched_b.contains(k2) {
                                let j = choose|j: int|
                                    0 <= j < sched_b.len() && sched_b[j] == k2;
                                assert(scheduled@[j] == k2);
                                assert(scheduled@.contains(k2));
                            }
                        }
                        if k2.chunk_index < last + k {
                            // an earlier candidate: the skip reason carries over
                            assert(queued_count(pend_b) == pool);
                            if acc {
                                assert(queued_count(pend_b) < pool);
                            }
                            assert(queued_count(cur) == pool);
                        } else {
                            // the candidate of this step
                            assert(k2.chunk_index == cand);
                            assert(k2 == ckey);
                            if acc {
                                assert(scheduled@[scheduled@.len() - 1] == ckey);
                                assert(scheduled@.contains(k2));
                            } else {
                                assert(!pending_has(pend_b, ckey)) by {
                                    if sched_b.contains(ckey) {
                                        let j = choose|j: int|
                                            0 <= j < sched_b.len() && sched_b[j] == ckey;
                                        assert(scheduled@[j] == ckey);
                                        assert(scheduled@.contains(ckey));
                                    }
                                }
                                assert(queued_count(pend_b) >= pool);
                                assert(queued_count(cur) == pool);
                            }
                        }
                    }
                }
            }
        }
        proof {
            assert forall|k2: ChunkKey|
                demanded(file_id, offset, length, cs_i, k2) && pending_has(
                    self.dispatcher.pending(),
                    k2,
                ) implies pending_has(pend0, k2) by {
                if scheduled@.contains(k2) {
                    let j = choose|j: int| 0 <= j < scheduled@.len() && scheduled@[j] == k2;
                    assert(last < scheduled@[j].chunk_index);
                }
            }
        }
        ReadOutcome { data, scheduled }
    }
}

/// Under coherence, the cached bytes of a chunk of the file are exactly
/// that chunk's bytes.
pub proof fn lemma_data_of_coherent(
    cache: Seq<Entry>,
    file_id: u64,
    content: Seq<u8>,
    cs: int,
    key: ChunkKey,
)
    requires
        coherent(cache, file_id, content, cs),
        has_key(cache, key),
        key.file_id == file_id,
    ensures
        data_of(cache, key) == chunk_bytes(content, key.chunk_index as int, cs),
{
    let i = index_of_key(cache, key);
    assert(0 <= i < cache.len() && cache[i].0 == key);
}

/// Recording an access preserves coherence: the entries are unchanged,
/// only their order moves.
pub proof fn lemma_coherent_after_access(
    cache: Seq<Entry>,
    file_id: u64,
    content: Seq<u8>,
    cs: int,
    key: ChunkKey,
)
    requires
        coherent(cache, file_id, content, cs),
        has_key(cache, key),
    ensures
        coherent(after_access(cache, key), file_id, content, cs),
{
    let i = index_of_key(cache, key);
    assert(0 <= i < cache.len());
    let t = after_access(cache, key);
    assert forall|a: int|
        0 <= a < t.len() && (#[trigger] t[a]).0.file_id == file_id implies t[a].1 == chunk_bytes(
        content,
        t[a].0.chunk_index as int,
        cs,
    ) by {
        if a < t.len() - 1 {
            assert(t[a] == if a < i {
                cache[a]
            } else {
                cache[a + 1]
            });
        } else {
            assert(t[a] == cache[i]);
        }
    }
}

/// Inserting an entry that itself holds true chunk data preserves
/// coherence: every surviving entry is an old entry or the new one.
pub proof fn lemma_coherent_after_insert(
    cache: Seq<Entry>,
    file_id: u64,
    content: Seq<u8>,
    cs: int,
    e: Entry,
    cap: int,
)
    requires
        coherent(cache, file_id, content, cs),
        e.0.file_id == file_id ==> e.1 == chunk_bytes(content, e.0.chunk_index as int, cs),
        cap >= 1,
        cache.len() <= cap,
    ensures
        coherent(after_insert(cache, e, cap), file_id, content, cs),
{
    let base = if has_key(cache, e.0) {
        cache.remove(index_of_key(cache, e.0))
    } else {
        cache
    };
    let i = index_of_key(cache, e.0);
    assert forall|a: int|
        0 <= a < base.len() && (#[trigger] base[a]).0.file_id == file_id implies base[a].1
        == chunk_bytes(content, base[a].0.chunk_index as int, cs) by {
        if has_key(cache, e.0) {
            assert(0 <= i < cache.len());
            assert(base[a] == if a < i {
                cache[a]
            } else {
                cache[a + 1]
            });
        }
    }
    let grown = base.push(e);
    let t = after_insert(cache, e, cap);
    let off = grown.len() - t.len();
    assert forall|a: int|
        0 <= a < t.len() && (#[trigger] t[a]).0.file_id == file_id implies t[a].1 == chunk_bytes(
        content,
        t[a].0.chunk_index as int,
        cs,
    ) by {
        assert(t[a] == grown[a + off]);
        if a + off < grown.len() - 1 {
            assert(grown[a + off] == base[a + off]);
        } else {
            assert(grown[a + off] == e);
        }
    }
}

} // verus!
