//! Repair that keeps going past chunks the engine cannot correct.
//!
//! Where `pipeline::repair` stops at the first uncorrectable chunk, a
//! salvaging run writes such a chunk and its parity block as they were read,
//! notes its index, and goes on with the next one, so that every later chunk
//! still gets its chance and the two output streams stay aligned. A missing
//! parity block still ends the run.
use vstd::prelude::*;
use vstd::slice::slice_subrange;
use crate::chunk::append_bytes;
use crate::chunk::chunk_at;
use crate::chunk::chunk_start;
use crate::chunk::lemma_chunk_index;
use crate::chunk::lemma_chunk_start_monotonic;
use crate::chunk::next_chunk;
use crate::chunk::num_chunks;
use crate::engine::codeword;
use crate::engine::correct_chunk;
use crate::engine::decoded;
use crate::engine::diff_count;
use crate::engine::parity_of;
use crate::pipeline::block_at;
use crate::pipeline::codeword_at;
use crate::pipeline::paired;
use crate::pipeline::valid_params;

verus! {

/// The codeword a salvaging run writes for chunk `i`: the corrected one, or
/// the one read back when the engine cannot correct it.
pub open spec fn salvaged_codeword(
    primary: Seq<u8>,
    parity: Seq<u8>,
    chunk_size: nat,
    ecc_len: nat,
    i: nat,
) -> Seq<u8> {
    match decoded(ecc_len, codeword_at(primary, parity, chunk_size, ecc_len, i)) {
        Some(w) => w,
        None => codeword_at(primary, parity, chunk_size, ecc_len, i),
    }
}

/// The data a salvaging run writes for the first `k` chunks.
pub open spec fn salvaged_data(
    primary: Seq<u8>,
    parity: Seq<u8>,
    chunk_size: nat,
    ecc_len: nat,
    k: nat,
) -> Seq<u8>
    decreases k,
{
    if k == 0 {
        Seq::empty()
    } else {
        let i = (k - 1) as nat;
        salvaged_data(primary, parity, chunk_size, ecc_len, i) + salvaged_codeword(
            primary,
            parity,
            chunk_size,
            ecc_len,
            i,
        ).take(chunk_at(primary, chunk_size, i).len() as int)
    }
}

/// The parity a salvaging run writes for the first `k` chunks.
pub open spec fn salvaged_parity(
    primary: Seq<u8>,
    parity: Seq<u8>,
    chunk_size: nat,
    ecc_len: nat,
    k: nat,
) -> Seq<u8>
    decreases k,
{
    if k == 0 {
        Seq::empty()
    } else {
        let i = (k - 1) as nat;
        salvaged_parity(primary, parity, chunk_size, ecc_len, i) + salvaged_codeword(
            primary,
            parity,
            chunk_size,
            ecc_len,
            i,
        ).skip(chunk_at(primary, chunk_size, i).len() as int)
    }
}

/// The indices, in order, of the chunks among the first `k` that the engine
/// cannot correct.
pub open spec fn unrepaired_prefix(
    primary: Seq<u8>,
    parity: Seq<u8>,
    chunk_size: nat,
    ecc_len: nat,
    k: nat,
) -> Seq<usize>
    decreases k,
{
    if k == 0 {
        Seq::empty()
    } else {
        let i = (k - 1) as nat;
        unrepaired_prefix(primary, parity, chunk_size, ecc_len, i) + if decoded(
            ecc_len,
            codeword_at(primary, parity, chunk_size, ecc_len, i),
        ) is None {
            seq![i as usize]
        } else {
            Seq::empty()
        }
    }
}

/// The output of a salvaging run: the data and parity written, the chunks
/// left as they were read, and the chunk whose parity block is missing, if
/// the run stopped there.
#[derive(Debug)]
pub struct Salvaged {
    pub data: Vec<u8>,
    pub parity: Vec<u8>,
    pub unrepaired: Vec<usize>,
    pub misaligned: Option<usize>,
}

impl Salvaged {
    /// The number of chunks this run wrote, out of `n`.
    pub open spec fn chunks_done(&self, n: nat) -> nat {
        match self.misaligned {
            None => n,
            Some(chunk) => chunk as nat,
        }
    }
}

/// Repairs a primary stream from its parity stream chunk by chunk, and
/// passes each chunk the engine cannot correct through unchanged, together
/// with its parity block. Stops only at the end of the primary stream or at
/// the first chunk without a whole parity block.
///
/// Every chunk whose codeword is damaged in at most `ecc_len / 2` bytes is
/// restored exactly, with its original parity block, whatever the state of
/// the other chunks.
pub fn salvage(primary: &[u8], parity: &[u8], chunk_size: usize, ecc_len: usize) -> (r: Salvaged)
    requires
        valid_params(chunk_size as nat, ecc_len as nat),
    ensures
        r.chunks_done(num_chunks(primary@.len(), chunk_size as nat)) <= num_chunks(
            primary@.len(),
            chunk_size as nat,
        ),
        forall|j: nat|
            j < r.chunks_done(num_chunks(primary@.len(), chunk_size as nat)) ==> #[trigger] paired(
                parity@,
                ecc_len as nat,
                j,
            ),
        r.misaligned matches Some(chunk) ==> chunk < num_chunks(primary@.len(), chunk_size as nat)
            && !paired(parity@, ecc_len as nat, chunk as nat),
        r.data@ == salvaged_data(
            primary@,
            parity@,
            chunk_size as nat,
            ecc_len as nat,
            r.chunks_done(num_chunks(primary@.len(), chunk_size as nat)),
        ),
        r.parity@ == salvaged_parity(
            primary@,
            parity@,
            chunk_size as nat,
            ecc_len as nat,
            r.chunks_done(num_chunks(primary@.len(), chunk_size as nat)),
        ),
        r.unrepaired@ == unrepaired_prefix(
            primary@,
            parity@,
            chunk_size as nat,
            ecc_len as nat,
            r.chunks_done(num_chunks(primary@.len(), chunk_size as nat)),
        ),
        r.data@.len() == chunk_start(
            primary@.len(),
            chunk_size as nat,
            r.chunks_done(num_chunks(primary@.len(), chunk_size as nat)),
        ),
        r.parity@.len() == r.chunks_done(num_chunks(primary@.len(), chunk_size as nat)) * ecc_len,
        forall|j: nat|
            j < r.chunks_done(num_chunks(primary@.len(), chunk_size as nat)) && decoded(
                ecc_len as nat,
                codeword_at(primary@, parity@, chunk_size as nat, ecc_len as nat, j),
            ) is Some ==> #[trigger] block_at(r.parity@, ecc_len as nat, j) == parity_of(
                ecc_len as nat,
                r.data@.subrange(
                    chunk_start(primary@.len(), chunk_size as nat, j) as int,
                    chunk_start(primary@.len(), chunk_size as nat, j + 1) as int,
                ),
            ),
        forall|original: Seq<u8>, j: nat|
            original.len() == primary@.len() && j < r.chunks_done(
                num_chunks(primary@.len(), chunk_size as nat),
            ) && #[trigger] diff_count(
                codeword(ecc_len as nat, chunk_at(original, chunk_size as nat, j)),
                codeword_at(primary@, parity@, chunk_size as nat, ecc_len as nat, j),
            ) <= ecc_len / 2 ==> r.data@.subrange(
                chunk_start(primary@.len(), chunk_size as nat, j) as int,
                chunk_start(primary@.len(), chunk_size as nat, j + 1) as int,
            ) == chunk_at(original, chunk_size as nat, j) && r.parity@.subrange(
                (j * ecc_len) as int,
                (j * ecc_len + ecc_len) as int,
            ) == parity_of(ecc_len as nat, chunk_at(original, chunk_size as nat, j)),
{
    let ghost cs = chunk_size as nat;
    let ghost e = ecc_len as nat;
    let ghost n = num_chunks(primary@.len(), cs);
    let mut data: Vec<u8> = Vec::new();
    let mut new_parity: Vec<u8> = Vec::new();
    let mut unrepaired: Vec<usize> = Vec::new();
    let mut pos: usize = 0;
    let mut ppos: usize = 0;
    let mut i: usize = 0;
    proof {
        lemma_chunk_index(primary@.len(), cs, 0);
    }
    while pos < primary.len()
        invariant
            valid_params(cs, e),
            cs == chunk_size,
            e == ecc_len,
            n == num_chunks(primary@.len(), cs),
            i <= n,
            pos == chunk_start(primary@.len(), cs, i as nat),
            pos < primary@.len() <==> i < n,
            ppos == i * e,
            ppos <= parity@.len(),
            forall|j: nat| j < i ==> #[trigger] paired(parity@, e, j),
            data@ == salvaged_data(primary@, parity@, cs, e, i as nat),
            new_parity@ == salvaged_parity(primary@, parity@, cs, e, i as nat),
            unrepaired@ == unrepaired_prefix(primary@, parity@, cs, e, i as nat),
            data@.len() == pos,
            new_parity@.len() == ppos,
            forall|j: nat|
                j < i && decoded(e, codeword_at(primary@, parity@, cs, e, j)) is Some
                    ==> #[trigger] block_at(new_parity@, e, j) == parity_of(
                    e,
                    data@.subrange(
                        chunk_start(primary@.len(), cs, j) as int,
                        chunk_start(primary@.len(), cs, j + 1) as int,
                    ),
                ),
            forall|original: Seq<u8>, j: nat|
                original.len() == primary@.len() && j < i && #[trigger] diff_count(
                    codeword(e, chunk_at(original, cs, j)),
                    codeword_at(primary@, parity@, cs, e, j),
                ) <= e / 2 ==> data@.subrange(
                    chunk_start(primary@.len(), cs, j) as int,
                    chunk_start(primary@.len(), cs, j + 1) as int,
                ) == chunk_at(original, cs, j) && new_parity@.subrange(
                    (j * e) as int,
                    (j * e + e) as int,
                ) == parity_of(e, chunk_at(original, cs, j)),
        decreases primary@.len() - pos,
    {
        proof {
            lemma_chunk_index(primary@.len(), cs, i as nat);
            lemma_chunk_index(primary@.len(), cs, (i + 1) as nat);
            assert(i * cs >= i) by (nonlinear_arith)
                requires
                    cs >= 1,
            ;
            assert((i + 1) * e == i * e + e) by (nonlinear_arith);
        }
        let len = next_chunk(primary.len(), pos, chunk_size);
        let chunk = slice_subrange(primary, pos, pos + len);
        assert(chunk@ == chunk_at(primary@, cs, i as nat));
        if parity.len() - ppos < ecc_len {
            return Salvaged { data, parity: new_parity, unrepaired, misaligned: Some(i) };
        }
        let block = slice_subrange(parity, ppos, ppos + ecc_len);
        assert(block@ == block_at(parity@, e, i as nat));
        assert(codeword_at(primary@, parity@, cs, e, i as nat) == chunk@ + block@);
        let ghost old_data = data@;
        let ghost old_parity = new_parity@;
        match correct_chunk(chunk, block, ecc_len) {
            None => {
                append_bytes(&mut data, chunk);
                append_bytes(&mut new_parity, block);
                unrepaired.push(i);
                proof {
                    assert((chunk@ + block@).take(chunk@.len() as int) == chunk@);
                    assert((chunk@ + block@).skip(chunk@.len() as int) == block@);
                    assert forall|j: nat|
                        j < i + 1 && decoded(e, codeword_at(primary@, parity@, cs, e, j)) is Some
                        implies #[trigger] block_at(new_parity@, e, j) == parity_of(
                        e,
                        data@.subrange(
                            chunk_start(primary@.len(), cs, j) as int,
                            chunk_start(primary@.len(), cs, j + 1) as int,
                        ),
                    ) by {
                        lemma_chunk_index(primary@.len(), cs, j);
                        if j < i {
                            lemma_chunk_start_monotonic(primary@.len(), cs, j + 1, i as nat);
                            assert((j + 1) * e <= i * e && (j + 1) * e == j * e + e) by (nonlinear_arith)
                                requires
                                    j < i,
                            ;
                            assert(block_at(new_parity@, e, j) == block_at(old_parity, e, j));
                            assert(data@.subrange(
                                chunk_start(primary@.len(), cs, j) as int,
                                chunk_start(primary@.len(), cs, j + 1) as int,
                            ) == old_data.subrange(
                                chunk_start(primary@.len(), cs, j) as int,
                                chunk_start(primary@.len(), cs, j + 1) as int,
                            ));
                        }
                    }
                }
            },
            Some((d, p)) => {
                append_bytes(&mut data, d.as_slice());
                append_bytes(&mut new_parity, p.as_slice());
                proof {
                    assert((d@ + p@).take(chunk@.len() as int) == d@);
                    assert((d@ + p@).skip(chunk@.len() as int) == p@);
                    assert(unrepaired_prefix(primary@, parity@, cs, e, (i + 1) as nat)
                        =~= unrepaired_prefix(primary@, parity@, cs, e, i as nat));
                    assert forall|j: nat|
                        j < i + 1 && decoded(e, codeword_at(primary@, parity@, cs, e, j)) is Some
                        implies #[trigger] block_at(new_parity@, e, j) == parity_of(
                        e,
                        data@.subrange(
                            chunk_start(primary@.len(), cs, j) as int,
                            chunk_start(primary@.len(), cs, j + 1) as int,
                        ),
                    ) by {
                        lemma_chunk_index(primary@.len(), cs, j);
                        if j < i {
                            lemma_chunk_start_monotonic(primary@.len(), cs, j + 1, i as nat);
                            assert((j + 1) * e <= i * e && (j + 1) * e == j * e + e) by (nonlinear_arith)
                                requires
                                    j < i,
                            ;
                            assert(block_at(new_parity@, e, j) == block_at(old_parity, e, j));
                            assert(data@.subrange(
                                chunk_start(primary@.len(), cs, j) as int,
                                chunk_start(primary@.len(), cs, j + 1) as int,
                            ) == old_data.subrange(
                                chunk_start(primary@.len(), cs, j) as int,
                                chunk_start(primary@.len(), cs, j + 1) as int,
                            ));
                        } else {
                            assert(block_at(new_parity@, e, j) == p@);
                            assert(data@.subrange(pos as int, (pos + len) as int) == d@);
                        }
                    }
                }
            },
        }
        proof {
            assert forall|original: Seq<u8>, j: nat|
                original.len() == primary@.len() && j < i + 1 && #[trigger] diff_count(
                    codeword(e, chunk_at(original, cs, j)),
                    codeword_at(primary@, parity@, cs, e, j),
                ) <= e / 2 implies data@.subrange(
                    chunk_start(primary@.len(), cs, j) as int,
                    chunk_start(primary@.len(), cs, j + 1) as int,
                ) == chunk_at(original, cs, j) && new_parity@.subrange(
                    (j * e) as int,
                    (j * e + e) as int,
                ) == parity_of(e, chunk_at(original, cs, j)) by {
                lemma_chunk_index(primary@.len(), cs, j);
                if j < i {
                    lemma_chunk_start_monotonic(primary@.len(), cs, j + 1, i as nat);
                    assert((j + 1) * e <= i * e && (j + 1) * e == j * e + e) by (nonlinear_arith)
                        requires
                            j < i,
                    ;
                    assert(data@.subrange(
                        chunk_start(primary@.len(), cs, j) as int,
                        chunk_start(primary@.len(), cs, j + 1) as int,
                    ) == old_data.subrange(
                        chunk_start(primary@.len(), cs, j) as int,
                        chunk_start(primary@.len(), cs, j + 1) as int,
                    ));
                    assert(new_parity@.subrange((j * e) as int, (j * e + e) as int)
                        == old_parity.subrange((j * e) as int, (j * e + e) as int));
                } else {
                    let od = chunk_at(original, cs, i as nat);
                    assert(diff_count(codeword(e, od), chunk@ + block@) <= e / 2);
                    assert(data@.subrange(pos as int, (pos + len) as int) == od);
                    assert(new_parity@.subrange((i * e) as int, (i * e + e) as int) == parity_of(e, od));
                }
            }
        }
        pos = pos + len;
        ppos = ppos + ecc_len;
        i = i + 1;
    }
    Salvaged { data, parity: new_parity, unrepaired, misaligned: None }
}

} // verus!
