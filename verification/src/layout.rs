//! Alignment of arbitrary byte ranges to fixed-size chunks: which chunk a
//! byte falls in, which chunks a read touches, and which bytes of a file
//! each chunk carries.

use vstd::prelude::*;
use vstd::arithmetic::div_mod::{
    lemma_div_is_ordered, lemma_fundamental_div_mod, lemma_fundamental_div_mod_converse_div,
    lemma_mod_division_less_than_divisor,
};

verus! {

/// The chunk index that byte `b` of a file falls in, for chunks of
/// `chunk_size` bytes.
pub open spec fn index_of_byte(b: int, chunk_size: int) -> int {
    b / chunk_size
}

/// The bytes of chunk `index` of a file whose full content is `content`:
/// one `chunk_size`-sized slice, shorter for the final chunk, empty past
/// the end of the file.
pub open spec fn chunk_bytes(content: Seq<u8>, index: int, chunk_size: int) -> Seq<u8> {
    let lo = index * chunk_size;
    let hi = if (index + 1) * chunk_size <= content.len() {
        (index + 1) * chunk_size
    } else {
        content.len() as int
    };
    if 0 <= lo <= hi <= content.len() {
        content.subrange(lo, hi)
    } else {
        Seq::empty()
    }
}

/// The chunk index of byte `offset`.
pub fn chunk_index(offset: u64, chunk_size: u64) -> (i: u64)
    requires
        chunk_size >= 1,
    ensures
        i == index_of_byte(offset as int, chunk_size as int),
{
    offset / chunk_size
}

/// The inclusive range of chunk indices that the byte range
/// `[offset, offset + length)` touches: from the chunk of the first byte to
/// the chunk of the last.
pub fn chunk_span(offset: u64, length: u64, chunk_size: u64) -> (r: (u64, u64))
    requires
        chunk_size >= 1,
        length >= 1,
        offset + length - 1 <= u64::MAX,
    ensures
        r.0 == index_of_byte(offset as int, chunk_size as int),
        r.1 == index_of_byte(offset as int + length - 1, chunk_size as int),
        r.0 <= r.1,
{
    let first = offset / chunk_size;
    let last = (offset + (length - 1)) / chunk_size;
    proof {
        lemma_div_is_ordered(offset as int, offset as int + length - 1, chunk_size as int);
    }
    (first, last)
}

/// Alignment law: the set of chunk indices touched by the byte range
/// `[offset, offset + length)` is exactly the inclusive interval from
/// `floor(offset / chunk_size)` to `floor((offset + length - 1) / chunk_size)`:
/// an index lies in that interval if and only if some byte of the range
/// falls in its chunk.
pub proof fn lemma_touched_indices(offset: int, length: int, chunk_size: int, i: int)
    requires
        chunk_size >= 1,
        length >= 1,
        offset >= 0,
    ensures
        (index_of_byte(offset, chunk_size) <= i <= index_of_byte(offset + length - 1, chunk_size))
            <==> (exists|b: int|
            offset <= b < offset + length && #[trigger] index_of_byte(b, chunk_size) == i),
{
    let first = index_of_byte(offset, chunk_size);
    let last = index_of_byte(offset + length - 1, chunk_size);
    if first <= i <= last {
        if i == first {
            assert(index_of_byte(offset, chunk_size) == i);
            assert(offset <= offset < offset + length);
        } else {
            // Witness: the first byte of chunk i itself lies inside the range.
            let b = i * chunk_size;
            lemma_fundamental_div_mod(offset, chunk_size);
            lemma_mod_division_less_than_divisor(offset, chunk_size);
            // offset < (first + 1) * chunk_size <= i * chunk_size
            assert((first + 1) * chunk_size <= i * chunk_size) by (nonlinear_arith)
                requires
                    first + 1 <= i,
                    chunk_size >= 1,
            ;
            assert(offset < (first + 1) * chunk_size) by (nonlinear_arith)
                requires
                    offset == chunk_size * first + offset % chunk_size,
                    offset % chunk_size < chunk_size,
            ;
            lemma_fundamental_div_mod(offset + length - 1, chunk_size);
            lemma_mod_division_less_than_divisor(offset + length - 1, chunk_size);
            assert(i * chunk_size <= last * chunk_size) by (nonlinear_arith)
                requires
                    i <= last,
                    chunk_size >= 1,
            ;
            assert(last * chunk_size <= offset + length - 1) by (nonlinear_arith)
                requires
                    offset + length - 1 == chunk_size * last + (offset + length - 1) % chunk_size,
                    (offset + length - 1) % chunk_size >= 0,
            ;
            lemma_fundamental_div_mod_converse_div(b, chunk_size, i, 0);
            assert(index_of_byte(b, chunk_size) == i);
            assert(offset <= b < offset + length);
        }
    }
    if exists|b: int| offset <= b < offset + length && #[trigger] index_of_byte(b, chunk_size)
        == i {
        let b = choose|b: int|
            offset <= b < offset + length && #[trigger] index_of_byte(b, chunk_size) == i;
        lemma_div_is_ordered(offset, b, chunk_size);
        lemma_div_is_ordered(b, offset + length - 1, chunk_size);
    }
}

/// Byte `b` of a file is byte `b % chunk_size` of chunk `b / chunk_size`.
pub proof fn lemma_byte_in_chunk(content: Seq<u8>, b: int, chunk_size: int)
    requires
        chunk_size >= 1,
        0 <= b < content.len(),
    ensures
        b % chunk_size < chunk_bytes(content, index_of_byte(b, chunk_size), chunk_size).len(),
        chunk_bytes(content, index_of_byte(b, chunk_size), chunk_size)[b % chunk_size]
            == content[b],
{
    let i = index_of_byte(b, chunk_size);
    lemma_fundamental_div_mod(b, chunk_size);
    lemma_mod_division_less_than_divisor(b, chunk_size);
    assert(i * chunk_size <= b < (i + 1) * chunk_size) by (nonlinear_arith)
        requires
            b == chunk_size * i + b % chunk_size,
            0 <= b % chunk_size < chunk_size,
    ;
    assert(i >= 0) by {
        if i < 0 {
            assert(i * chunk_size <= (-1) * chunk_size) by (nonlinear_arith)
                requires
                    i <= -1,
                    chunk_size >= 1,
            ;
        }
    }
    let lo = i * chunk_size;
    let hi = if (i + 1) * chunk_size <= content.len() {
        (i + 1) * chunk_size
    } else {
        content.len() as int
    };
    assert(chunk_bytes(content, i, chunk_size) == content.subrange(lo, hi));
    assert(b - lo == b % chunk_size);
}

} // verus!
