//! Division of a length into chunks, the last of which may be shorter.
use vstd::prelude::*;

verus! {

/// The number of chunks of `size` that `len` takes.
pub open spec fn chunk_total(len: int, size: int) -> int {
    (len + size - 1) / size
}

/// Where chunk `c` ends.
pub open spec fn chunk_end(len: int, size: int, c: int) -> int {
    if (c + 1) * size <= len {
        (c + 1) * size
    } else {
        len
    }
}

/// The number of chunks of `size` that `len` takes.
pub fn num_chunks(len: usize, size: usize) -> (out: usize)
    requires
        size > 0,
    ensures
        out == chunk_total(len as int, size as int),
        len <= out * size < len + size,
{
    let whole = len / size;
    let rest = len % size;
    proof {
        lemma_chunks_cover(len as int, size as int);
        let (l, s, w, r) = (len as int, size as int, whole as int, rest as int);
        vstd::arithmetic::div_mod::lemma_fundamental_div_mod(l, s);
        vstd::arithmetic::div_mod::lemma_mod_bound(l, s);
        if r == 0 {
            vstd::arithmetic::div_mod::lemma_fundamental_div_mod_converse(l + s - 1, s, w, s - 1);
        } else {
            assert(s * (w + 1) == s * w + s) by (nonlinear_arith);
            vstd::arithmetic::div_mod::lemma_fundamental_div_mod_converse(
                l + s - 1,
                s,
                w + 1,
                r - 1,
            );
            assert(w < l) by (nonlinear_arith)
                requires
                    l == s * w + r,
                    r > 0,
                    s > 0,
                    w >= 0,
            ;
        }
    }
    if rest == 0 {
        whole
    } else {
        whole + 1
    }
}

/// Where the chunk that a worker has claimed begins and ends, or nothing where there are no more
/// chunks.
pub fn claimed_chunk(chunk_idx: usize, len: usize, size: usize) -> (out: Option<(usize, usize)>)
    requires
        size > 0,
    ensures
        match out {
            Some((start, end)) => {
                &&& chunk_idx < chunk_total(len as int, size as int)
                &&& start == chunk_idx * size
                &&& end == chunk_end(len as int, size as int, chunk_idx as int)
                &&& start < end <= len
            },
            None => chunk_idx >= chunk_total(len as int, size as int),
        },
{
    if chunk_idx >= num_chunks(len, size) {
        return None;
    }
    proof {
        lemma_chunk_starts(len as int, size as int, chunk_idx as int);
    }
    let start = chunk_idx * size;
    let end = if len - start < size {
        len
    } else {
        start + size
    };
    Some((start, end))
}

/// A chunk begins inside what is divided.
pub proof fn lemma_chunk_starts(len: int, size: int, c: int)
    requires
        0 <= len,
        0 < size,
        0 <= c < chunk_total(len, size),
    ensures
        0 <= c * size < len,
        (c + 1) * size == c * size + size,
{
    let all = len + size - 1;
    vstd::arithmetic::div_mod::lemma_fundamental_div_mod(all, size);
    vstd::arithmetic::div_mod::lemma_mod_bound(all, size);
    let total = all / size;
    assert((c + 1) * size == c * size + size && 0 <= c * size && (c + 1) * size <= size * total)
        by (nonlinear_arith)
        requires
            0 <= c < total,
            0 < size,
    ;
}

/// The chunks cover what is divided, and the last of them is not empty.
pub proof fn lemma_chunks_cover(len: int, size: int)
    requires
        0 <= len,
        0 < size,
    ensures
        len <= chunk_total(len, size) * size < len + size,
        0 < len ==> chunk_total(len, size) > 0,
        len == 0 ==> chunk_total(len, size) == 0,
{
    let all = len + size - 1;
    vstd::arithmetic::div_mod::lemma_fundamental_div_mod(all, size);
    vstd::arithmetic::div_mod::lemma_mod_bound(all, size);
    let total = all / size;
    assert(total * size == size * total) by (nonlinear_arith);
    if len > 0 {
        assert(total > 0) by (nonlinear_arith)
            requires
                total * size >= len,
                len > 0,
                size > 0,
        ;
    } else {
        vstd::arithmetic::div_mod::lemma_basic_div(size - 1, size);
    }
}

/// A chunk is as long as it should be, but for the last, which ends with what is divided.
pub proof fn lemma_chunk_is_full(len: int, size: int, c: int)
    requires
        0 <= len,
        0 < size,
        0 <= c < chunk_total(len, size),
    ensures
        chunk_end(len, size, c) - c * size <= size,
        chunk_end(len, size, c) - c * size == size || chunk_end(len, size, c) == len,
        c * size < chunk_end(len, size, c) <= len,
{
    lemma_chunk_starts(len, size, c);
}

} // verus!
