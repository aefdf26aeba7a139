//! Partitioning a byte stream into fixed-size chunks, the last of which may
//! be short.
use vstd::prelude::*;

verus! {

/// How many chunks a stream of `len` bytes has: `ceil(len / chunk_size)`.
pub open spec fn num_chunks(len: nat, chunk_size: nat) -> nat {
    if chunk_size == 0 {
        0
    } else {
        ((len + chunk_size - 1) / chunk_size as int) as nat
    }
}

/// Offset at which chunk `i` starts; `len` once `i` is past the last chunk.
pub open spec fn chunk_start(len: nat, chunk_size: nat, i: nat) -> nat {
    if i * chunk_size < len {
        i * chunk_size
    } else {
        len
    }
}

/// The bytes of chunk `i` of `s`.
pub open spec fn chunk_at(s: Seq<u8>, chunk_size: nat, i: nat) -> Seq<u8> {
    s.subrange(
        chunk_start(s.len(), chunk_size, i) as int,
        chunk_start(s.len(), chunk_size, i + 1) as int,
    )
}

/// Chunk `i` exists exactly when it starts before the end of the stream, and
/// chunk starts never decrease.
pub proof fn lemma_chunk_index(len: nat, chunk_size: nat, i: nat)
    requires
        chunk_size > 0,
    ensures
        i < num_chunks(len, chunk_size) <==> i * chunk_size < len,
        (i + 1) * chunk_size == i * chunk_size + chunk_size,
        chunk_start(len, chunk_size, i) <= chunk_start(len, chunk_size, i + 1),
        i < num_chunks(len, chunk_size) ==> chunk_start(len, chunk_size, i) == i * chunk_size,
        i == num_chunks(len, chunk_size) ==> chunk_start(len, chunk_size, i) == len,
{
    let n = num_chunks(len, chunk_size);
    assert((i + 1) * chunk_size == i * chunk_size + chunk_size) by (nonlinear_arith);
    assert(n * chunk_size >= len && (n == 0 || (n - 1) * chunk_size < len)) by (nonlinear_arith)
        requires
            chunk_size > 0,
            n == (len + chunk_size - 1) / chunk_size as int,
    {
        assert(((len + chunk_size - 1) / chunk_size as int) * chunk_size + (len + chunk_size - 1)
            % chunk_size as int == len + chunk_size - 1);
    }
    assert(i < n <==> i * chunk_size < len) by (nonlinear_arith)
        requires
            chunk_size > 0,
            n * chunk_size >= len,
            n == 0 || (n - 1) * chunk_size < len,
    {
        if i < n {
            assert(i * chunk_size <= (n - 1) * chunk_size);
        } else {
            assert(i * chunk_size >= n * chunk_size);
        }
    }
}

/// Chunk starts grow with the chunk index.
pub proof fn lemma_chunk_start_monotonic(len: nat, chunk_size: nat, i: nat, j: nat)
    requires
        i <= j,
    ensures
        chunk_start(len, chunk_size, i) <= chunk_start(len, chunk_size, j),
{
    assert(i * chunk_size <= j * chunk_size) by (nonlinear_arith)
        requires
            i <= j,
    ;
}

/// Length of the chunk that starts at `pos` in a stream of `len` bytes:
/// `chunk_size`, or what is left when that is less.
pub fn next_chunk(len: usize, pos: usize, chunk_size: usize) -> (r: usize)
    requires
        pos <= len,
    ensures
        r == if len - pos < chunk_size { len - pos } else { chunk_size as int },
        r == 0 <==> pos == len || chunk_size == 0,
{
    if len - pos < chunk_size {
        len - pos
    } else {
        chunk_size
    }
}

/// Appends the bytes of `src` to `out`.
pub(crate) fn append_bytes(out: &mut Vec<u8>, src: &[u8])
    ensures
        final(out)@ == old(out)@ + src@,
{
    let ghost start = out@;
    let mut i: usize = 0;
    while i < src.len()
        invariant
            i <= src@.len(),
            out@ == start + src@.take(i as int),
        decreases src@.len() - i,
    {
        out.push(src[i]);
        i = i + 1;
        assert(src@.take(i as int) == src@.take(i - 1 as int).push(src@[i - 1 as int]));
    }
    assert(src@.take(i as int) == src@);
}

} // verus!
