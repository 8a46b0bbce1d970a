//! The data model of the pipeline: chunk identity, chunk contents, and the
//! error taxonomy of the fetch path.

use vstd::prelude::*;

verus! {

/// Identifies one fixed-size chunk of one remote file: the bytes
/// `[chunk_index * chunk_size, chunk_index * chunk_size + chunk_size)`
/// of the file with id `file_id`. The final chunk of a file may be shorter.
#[derive(Clone, Copy, PartialEq, Eq, Structural, Debug, Hash)]
pub struct ChunkKey {
    pub file_id: u64,
    pub chunk_index: u64,
}

/// One populated chunk: its key and its byte buffer. Immutable once
/// populated; readers share it by byte-for-byte copies.
#[derive(Debug)]
pub struct Chunk {
    pub key: ChunkKey,
    pub data: Vec<u8>,
}

/// What one raw ranged read against the remote store can fail with.
/// `Transient` failures (timeouts, rate limits) are retried; the others
/// are permanent and surface immediately.
#[derive(Clone, Copy, PartialEq, Eq, Structural, Debug)]
pub enum StoreError {
    Transient,
    Auth,
    NotFound,
}

/// Terminal failure of a chunk fetch as surfaced to readers. Exhausted
/// retries and permanent store errors terminate the fetch alike.
#[derive(Clone, Copy, PartialEq, Eq, Structural, Debug)]
pub enum FetchError {
    Exhausted,
    Auth,
    NotFound,
}

/// The result of one attempt against the remote store's ranged-read
/// endpoint: either the requested bytes or a [`StoreError`].
pub enum StoreOutcome {
    Data(Vec<u8>),
    Failed(StoreError),
}

/// Byte-for-byte copy of a buffer.
pub fn copy_bytes(src: &Vec<u8>) -> (out: Vec<u8>)
    ensures
        out@ == src@,
{
    let mut out: Vec<u8> = Vec::new();
    let mut i: usize = 0;
    while i < src.len()
        invariant
            i <= src.len(),
            out@ == src@.subrange(0, i as int),
        decreases src.len() - i,
    {
        out.push(src[i]);
        i = i + 1;
        proof {
            assert(out@ =~= src@.subrange(0, i as int));
        }
    }
    proof {
        assert(out@ =~= src@);
    }
    out
}

/// Byte-for-byte copy of `src[lo..hi]`.
pub fn copy_range(src: &Vec<u8>, lo: usize, hi: usize) -> (out: Vec<u8>)
    requires
        lo <= hi <= src@.len(),
    ensures
        out@ == src@.subrange(lo as int, hi as int),
{
    let mut out: Vec<u8> = Vec::new();
    let mut i: usize = lo;
    proof {
        assert(out@ =~= src@.subrange(lo as int, lo as int));
    }
    while i < hi
        invariant
            lo <= i <= hi <= src@.len(),
            out@ == src@.subrange(lo as int, i as int),
        decreases hi - i,
    {
        out.push(src[i]);
        i = i + 1;
        proof {
            assert(out@ =~= src@.subrange(lo as int, i as int));
        }
    }
    out
}

/// Appends `src[lo..hi]` to `dst`.
pub fn append_range(dst: &mut Vec<u8>, src: &Vec<u8>, lo: usize, hi: usize)
    requires
        lo <= hi <= src@.len(),
    ensures
        final(dst)@ == old(dst)@ + src@.subrange(lo as int, hi as int),
{
    let mut i: usize = lo;
    proof {
        assert(dst@ =~= old(dst)@ + src@.subrange(lo as int, lo as int));
    }
    while i < hi
        invariant
            lo <= i <= hi <= src@.len(),
            dst@ == old(dst)@ + src@.subrange(lo as int, i as int),
        decreases hi - i,
    {
        dst.push(src[i]);
        i = i + 1;
        proof {
            assert(dst@ =~= old(dst)@ + src@.subrange(lo as int, i as int));
        }
    }
}

impl Chunk {
    /// A chunk with the same key and the same bytes. Chunks are read-only
    /// once populated, so sharing is plain duplication.
    pub fn duplicate(&self) -> (c: Chunk)
        ensures
            c.key == self.key,
            c.data@ == self.data@,
    {
        Chunk { key: self.key, data: copy_bytes(&self.data) }
    }
}

} // verus!
