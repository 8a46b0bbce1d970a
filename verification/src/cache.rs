//! The MemoryCache: a bounded in-memory store of chunks keyed by
//! `(file_id, chunk_index)`, wrapping the Fetcher, with least-recently-used
//! eviction.
//!
//! The recency order is positional: the entry sequence runs from least
//! recently used (front) to most recently used (back). Every lookup hit
//! moves its entry to the back; eviction removes from the front until the
//! occupancy is within capacity. A fetch failure is never cached.

use vstd::prelude::*;
use crate::chunk::{Chunk, ChunkKey, FetchError, StoreOutcome};
use crate::fetch::{fetch_result, Fetcher};

verus! {

/// The mathematical model of one cache entry: its key and its bytes.
pub type Entry = (ChunkKey, Seq<u8>);

/// The model of a chunk sequence: each chunk as a key/bytes pair.
pub open spec fn entries_of(s: Seq<Chunk>) -> Seq<Entry> {
    s.map_values(|c: Chunk| (c.key, c.data@))
}

/// Whether some entry of `s` has key `key`.
pub open spec fn has_key(s: Seq<Entry>, key: ChunkKey) -> bool {
    exists|i: int| 0 <= i < s.len() && s[i].0 == key
}

/// The position of the entry with key `key` (meaningful under `has_key`
/// and unique keys).
pub open spec fn index_of_key(s: Seq<Entry>, key: ChunkKey) -> int {
    choose|i: int| 0 <= i < s.len() && s[i].0 == key
}

/// The cached bytes under `key`.
pub open spec fn data_of(s: Seq<Entry>, key: ChunkKey) -> Seq<u8> {
    s[index_of_key(s, key)].1
}

/// No two entries of `s` share a key.
pub open spec fn keys_unique(s: Seq<Entry>) -> bool {
    forall|i: int, j: int| 0 <= i < j < s.len() ==> s[i].0 != s[j].0
}

/// The recency order after a hit on `key`: the entry moves to the
/// most-recently-used end; nothing else changes.
pub open spec fn after_access(s: Seq<Entry>, key: ChunkKey) -> Seq<Entry> {
    let i = index_of_key(s, key);
    s.remove(i).push(s[i])
}

/// The recency order after inserting entry `e` into `s` with capacity
/// `cap`: any entry with the same key is replaced, the new entry enters at
/// the most-recently-used end, and least-recently-used entries are evicted
/// from the front until the occupancy is within `cap`.
pub open spec fn after_insert(s: Seq<Entry>, e: Entry, cap: int) -> Seq<Entry> {
    let base = if has_key(s, e.0) {
        s.remove(index_of_key(s, e.0))
    } else {
        s
    };
    let grown = base.push(e);
    if grown.len() <= cap {
        grown
    } else {
        grown.skip(grown.len() - cap)
    }
}

/// A bounded chunk cache with LRU eviction, delegating misses to the
/// Fetcher beneath it.
pub struct MemoryCache {
    fetcher: Fetcher,
    entries: Vec<Chunk>,
    capacity: usize,
}

impl MemoryCache {
    /// The retry policy for raw ranged reads on a miss.
    pub closed spec fn fetcher_of(self) -> Fetcher {
        self.fetcher
    }

    /// The entries in recency order, least recently used first.
    pub closed spec fn recency(self) -> Seq<Entry> {
        entries_of(self.entries@)
    }

    /// The configured capacity, in chunks.
    pub closed spec fn cap(self) -> int {
        self.capacity as int
    }

    /// Well-formed: positive capacity, occupancy within capacity, no two
    /// entries for one key, at least one fetch attempt allowed.
    pub open spec fn wf(self) -> bool {
        &&& self.cap() >= 1
        &&& self.recency().len() <= self.cap()
        &&& keys_unique(self.recency())
        &&& self.fetcher_of().budget >= 1
    }

    /// An empty cache over `fetcher` holding at most `capacity` chunks.
    pub fn new(fetcher: Fetcher, capacity: usize) -> (c: MemoryCache)
        requires
            capacity >= 1,
            fetcher.budget >= 1,
        ensures
            c.wf(),
            c.recency() == Seq::<Entry>::empty(),
            c.cap() == capacity,
            c.fetcher_of() == fetcher,
    {
        let c = MemoryCache { fetcher, entries: Vec::new(), capacity };
        proof {
            assert(c.recency() =~= Seq::<Entry>::empty());
        }
        c
    }

    /// The position of `key`'s entry, if the cache holds one.
    fn find(&self, file_id: u64, chunk_index: u64) -> (r: Option<usize>)
        requires
            self.wf(),
        ensures
            ({
                let key = ChunkKey { file_id, chunk_index };
                match r {
                    Some(i) => i < self.recency().len() && self.recency()[i as int].0 == key
                        && i as int == index_of_key(self.recency(), key),
                    None => !has_key(self.recency(), key),
                }
            }),
    {
        let key = ChunkKey { file_id, chunk_index };
        let n = self.entries.len();
        let mut i: usize = 0;
        while i < n
            invariant
                self.wf(),
                n == self.recency().len(),
                i <= n,
                key == (ChunkKey { file_id, chunk_index }),
                forall|j: int| 0 <= j < i ==> self.recency()[j].0 != key,
            decreases n - i,
        {
            if self.entries[i].key == key {
                proof {
                    let s = self.recency();
                    assert(s[i as int].0 == key);
                    let w = index_of_key(s, key);
                    assert(0 <= w < s.len() && s[w].0 == key);
                    if w != i as int {
                        assert(s[w].0 == s[i as int].0);
                    }
                }
                return Some(i);
            }
            proof {
                assert(self.recency()[i as int].0 == self.entries@[i as int].key);
            }
            i = i + 1;
        }
        None
    }

    /// Whether the cache holds an entry for `(file_id, chunk_index)`,
    /// without recording an access.
    pub fn contains(&self, file_id: u64, chunk_index: u64) -> (r: bool)
        requires
            self.wf(),
        ensures
            r == has_key(self.recency(), ChunkKey { file_id, chunk_index }),
    {
        match self.find(file_id, chunk_index) {
            Some(_) => true,
            None => false,
        }
    }

    /// The number of cached chunks.
    pub fn count(&self) -> (n: usize)
        ensures
            n == self.recency().len(),
    {
        self.entries.len()
    }

    /// Looks `(file_id, chunk_index)` up. On a hit, records the access by
    /// moving the entry to the most-recently-used end and returns a copy of
    /// the chunk; on a miss, leaves the cache unchanged.
    pub fn lookup(&mut self, file_id: u64, chunk_index: u64) -> (r: Option<Chunk>)
        requires
            old(self).wf(),
        ensures
            final(self).wf(),
            final(self).cap() == old(self).cap(),
            final(self).fetcher_of() == old(self).fetcher_of(),
            ({
                let key = ChunkKey { file_id, chunk_index };
                match r {
                    None => !has_key(old(self).recency(), key) && final(self).recency() == old(
                        self,
                    ).recency(),
                    Some(c) => has_key(old(self).recency(), key) && c.key == key && c.data@
                        == data_of(old(self).recency(), key) && final(self).recency()
                        == after_access(old(self).recency(), key),
                }
            }),
    {
        match self.find(file_id, chunk_index) {
            None => None,
            Some(i) => {
                let ghost s = self.recency();
                let ghost key = ChunkKey { file_id, chunk_index };
                let e = self.entries.remove(i);
                let c = e.duplicate();
                self.entries.push(e);
                proof {
                    let t = self.recency();
                    assert(t =~= after_access(s, key));
                    lemma_unique_after_access(s, key);
                }
                Some(c)
            },
        }
    }

    /// Inserts `chunk`, replacing any entry with the same key, at the
    /// most-recently-used end, then evicts least-recently-used entries
    /// until the occupancy is within capacity. An insertion into a
    /// saturated cache may evict at once.
    pub fn insert(&mut self, chunk: Chunk)
        requires
            old(self).wf(),
        ensures
            final(self).wf(),
            final(self).cap() == old(self).cap(),
            final(self).fetcher_of() == old(self).fetcher_of(),
            final(self).recency() == after_insert(
                old(self).recency(),
                (chunk.key, chunk.data@),
                old(self).cap(),
            ),
    {
        let ghost s0 = self.recency();
        let ghost e = (chunk.key, chunk.data@);
        match self.find(chunk.key.file_id, chunk.key.chunk_index) {
            Some(i) => {
                let _ = self.entries.remove(i);
            },
            None => {},
        }
        proof {
            assert(self.recency() =~= (if has_key(s0, e.0) {
                s0.remove(index_of_key(s0, e.0))
            } else {
                s0
            }));
        }
        let ghost base = self.recency();
        self.entries.push(chunk);
        proof {
            assert(self.recency() =~= base.push(e));
        }
        let ghost grown = self.recency();
        if self.entries.len() > self.capacity {
            let _ = self.entries.remove(0);
            proof {
                assert(self.recency() =~= grown.skip(grown.len() - self.cap()));
            }
        }
        proof {
            assert(self.recency() == after_insert(s0, e, old(self).cap()));
            lemma_unique_after_insert(s0, e, old(self).cap());
        }
    }

    /// The MemoryCache contract: a hit returns the cached chunk and records
    /// the access; a miss delegates one whole fetch to the Fetcher, whose
    /// `k`-th attempt the store answers with `outcomes[k]`, caches the chunk
    /// on success, and surfaces the failure without caching anything on
    /// failure — a later call for the same key is always allowed to try
    /// again.
    pub fn get_or_fetch(&mut self, file_id: u64, chunk_index: u64, outcomes: &Vec<StoreOutcome>)
        -> (r: Result<Chunk, FetchError>)
        requires
            old(self).wf(),
            outcomes@.len() >= old(self).fetcher_of().budget,
        ensures
            final(self).wf(),
            final(self).cap() == old(self).cap(),
            final(self).fetcher_of() == old(self).fetcher_of(),
            ({
                let key = ChunkKey { file_id, chunk_index };
                if has_key(old(self).recency(), key) {
                    r matches Ok(c) && c.key == key && c.data@ == data_of(
                        old(self).recency(),
                        key,
                    ) && final(self).recency() == after_access(old(self).recency(), key)
                } else {
                    match fetch_result(outcomes@, old(self).fetcher_of().budget as int) {
                        Ok(d) => r matches Ok(c) && c.key == key && c.data@ == d
                            && final(self).recency() == after_insert(
                            old(self).recency(),
                            (key, d),
                            old(self).cap(),
                        ),
                        Err(e) => r == Result::<Chunk, FetchError>::Err(e) && final(self).recency()
                            == old(self).recency(),
                    }
                }
            }),
    {
        match self.lookup(file_id, chunk_index) {
            Some(c) => Ok(c),
            None => {
                let key = ChunkKey { file_id, chunk_index };
                match self.fetcher.run(outcomes) {
                    Ok(d) => {
                        let cached = Chunk { key, data: crate::chunk::copy_bytes(&d) };
                        self.insert(cached);
                        Ok(Chunk { key, data: d })
                    },
                    Err(e) => Err(e),
                }
            },
        }
    }
}

/// Moving a hit to the most-recently-used end keeps keys pairwise distinct.
proof fn lemma_unique_after_access(s: Seq<Entry>, key: ChunkKey)
    requires
        keys_unique(s),
        has_key(s, key),
    ensures
        keys_unique(after_access(s, key)),
{
    let i = index_of_key(s, key);
    let t = after_access(s, key);
    assert forall|a: int, b: int| 0 <= a < b < t.len() implies t[a].0 != t[b].0 by {
        if a < t.len() - 1 {
            assert(t[a] == if a < i {
                s[a]
            } else {
                s[a + 1]
            });
        }
        if b < t.len() - 1 {
            assert(t[b] == if b < i {
                s[b]
            } else {
                s[b + 1]
            });
        } else {
            assert(t[b] == s[i]);
        }
    }
}

/// Replacing any entry of `e`'s key and pushing `e` keeps keys pairwise
/// distinct.
proof fn lemma_replaced_push_unique(s: Seq<Entry>, e: Entry)
    requires
        keys_unique(s),
    ensures
        keys_unique(
            (if has_key(s, e.0) {
                s.remove(index_of_key(s, e.0))
            } else {
                s
            }).push(e),
        ),
{
    let base = if has_key(s, e.0) {
        s.remove(index_of_key(s, e.0))
    } else {
        s
    };
    let i = index_of_key(s, e.0);
    assert forall|a: int, b: int| 0 <= a < b < base.len() implies base[a].0 != base[b].0 by {
        if has_key(s, e.0) {
            assert(base[a] == if a < i {
                s[a]
            } else {
                s[a + 1]
            });
            assert(base[b] == if b < i {
                s[b]
            } else {
                s[b + 1]
            });
        }
    }
    assert forall|a: int| 0 <= a < base.len() implies base[a].0 != e.0 by {
        if has_key(s, e.0) {
            assert(0 <= i < s.len() && s[i].0 == e.0);
            assert(base[a] == if a < i {
                s[a]
            } else {
                s[a + 1]
            });
        } else {
            assert(!(exists|k: int| 0 <= k < s.len() && s[k].0 == e.0));
        }
    }
    let grown = base.push(e);
    assert forall|a: int, b: int| 0 <= a < b < grown.len() implies grown[a].0 != grown[b].0 by {
        assert(grown[a] == base[a]);
        if b < grown.len() - 1 {
            assert(grown[b] == base[b]);
        } else {
            assert(grown[b] == e);
        }
    }
}

/// Insertion with replacement and front eviction keeps keys pairwise
/// distinct and the occupancy within capacity.
proof fn lemma_unique_after_insert(s: Seq<Entry>, e: Entry, cap: int)
    requires
        keys_unique(s),
        s.len() <= cap,
        cap >= 1,
    ensures
        keys_unique(after_insert(s, e, cap)),
        after_insert(s, e, cap).len() <= cap,
{
    lemma_replaced_push_unique(s, e);
    let base = if has_key(s, e.0) {
        s.remove(index_of_key(s, e.0))
    } else {
        s
    };
    let grown = base.push(e);
    let t = after_insert(s, e, cap);
    let off = grown.len() - t.len();
    assert forall|a: int, b: int| 0 <= a < b < t.len() implies t[a].0 != t[b].0 by {
        assert(t[a] == grown[a + off]);
        assert(t[b] == grown[b + off]);
    }
}

/// LRU law: insertion evicts least-recently-used entries first. Among the
/// entries an insertion does not replace, whenever one survives it, every
/// entry more recently used than it survives too — so an entry accessed
/// just before an insertion outlives any strictly older unaccessed entry.
pub proof fn lemma_insert_evicts_lru_first(s: Seq<Entry>, e: Entry, cap: int, i: int, j: int)
    requires
        keys_unique(s),
        s.len() <= cap,
        cap >= 1,
        0 <= i < j < s.len(),
        s[i].0 != e.0,
        s[j].0 != e.0,
        has_key(after_insert(s, e, cap), s[i].0),
    ensures
        has_key(after_insert(s, e, cap), s[j].0),
{
    let base = if has_key(s, e.0) {
        s.remove(index_of_key(s, e.0))
    } else {
        s
    };
    let idx = index_of_key(s, e.0);
    // where the two entries stand in the recency order after the removal
    let pi = if has_key(s, e.0) && i > idx {
        i - 1
    } else {
        i
    };
    let pj = if has_key(s, e.0) && j > idx {
        j - 1
    } else {
        j
    };
    if has_key(s, e.0) {
        assert(0 <= idx < s.len() && s[idx].0 == e.0);
        assert(idx != i && idx != j);
        assert(base[pi] == s[i]);
        assert(base[pj] == s[j]);
    }
    assert(0 <= pi < pj < base.len());
    let grown = base.push(e);
    assert(grown[pi] == s[i] && grown[pj] == s[j]);
    lemma_unique_after_insert(s, e, cap);
    let t = after_insert(s, e, cap);
    let off = grown.len() - t.len();
    assert(0 <= off <= 1);
    // the survivor's record in the evicted order is its old one
    let w = index_of_key(t, s[i].0);
    assert(0 <= w < t.len() && t[w].0 == s[i].0);
    assert(t[w] == grown[w + off]);
    lemma_replaced_push_unique(s, e);
    assert(w + off == pi);
    assert(pj >= off);
    assert(t[pj - off] == grown[pj]);
    assert(has_key(t, s[j].0));
}

} // verus!
