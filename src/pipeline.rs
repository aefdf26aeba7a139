//! The encode and repair pipelines over whole streams.
//!
//! Each chunk is encoded at its own length: the short final chunk is not
//! padded, so its codeword is a shortened Reed-Solomon codeword. Repair uses
//! the same rule, which keeps the two sides in agreement.
use vstd::prelude::*;
use vstd::arithmetic::div_mod::lemma_div_multiples_vanish;
use vstd::slice::slice_subrange;
use crate::chunk::append_bytes;
use crate::chunk::chunk_at;
use crate::chunk::chunk_start;
use crate::chunk::lemma_chunk_index;
use crate::chunk::lemma_chunk_start_monotonic;
use crate::chunk::next_chunk;
use crate::chunk::num_chunks;
use crate::engine::MAX_CODEWORD;
use crate::engine::codeword;
use crate::engine::correct_chunk;
use crate::engine::decoded;
use crate::engine::diff_count;
use crate::engine::encode_chunk;
use crate::engine::lemma_diff_count_self;
use crate::engine::lemma_diff_count_update;
use crate::engine::parity_of;

verus! {

/// Parameters the codec accepts: non-empty chunks, a full chunk together
/// with its parity fits in one codeword of the engine, and so does the
/// engine's working polynomial when it corrects `ecc_len / 2` errors.
pub open spec fn valid_params(chunk_size: nat, ecc_len: nat) -> bool {
    chunk_size >= 1 && chunk_size + ecc_len <= MAX_CODEWORD && ecc_len + ecc_len / 2 <= MAX_CODEWORD
}

/// Whether `chunk_size` and `ecc_len` are parameters the codec accepts.
pub fn check_params(chunk_size: usize, ecc_len: usize) -> (r: bool)
    ensures
        r == valid_params(chunk_size as nat, ecc_len as nat),
{
    chunk_size >= 1 && ecc_len <= MAX_CODEWORD && chunk_size <= MAX_CODEWORD - ecc_len && ecc_len
        + ecc_len / 2 <= MAX_CODEWORD
}

/// The parity blocks of the first `k` chunks of `s`, in chunk order.
pub open spec fn parity_prefix(s: Seq<u8>, chunk_size: nat, ecc_len: nat, k: nat) -> Seq<u8>
    decreases k,
{
    if k == 0 {
        Seq::empty()
    } else {
        parity_prefix(s, chunk_size, ecc_len, (k - 1) as nat) + parity_of(
            ecc_len,
            chunk_at(s, chunk_size, (k - 1) as nat),
        )
    }
}

/// The parity stream of `s`: one parity block per chunk.
pub open spec fn encoded_parity(s: Seq<u8>, chunk_size: nat, ecc_len: nat) -> Seq<u8> {
    parity_prefix(s, chunk_size, ecc_len, num_chunks(s.len(), chunk_size))
}

/// The two streams an encode run produces.
#[derive(Debug)]
pub struct Encoded {
    pub primary: Vec<u8>,
    pub parity: Vec<u8>,
}

/// Encodes `source`: the primary stream is a copy of it, and the parity
/// stream holds the parity block of each chunk, `ecc_len` bytes each.
pub fn encode(source: &[u8], chunk_size: usize, ecc_len: usize) -> (r: Encoded)
    requires
        valid_params(chunk_size as nat, ecc_len as nat),
    ensures
        r.primary@ == source@,
        r.parity@ == encoded_parity(source@, chunk_size as nat, ecc_len as nat),
        r.parity@.len() == num_chunks(source@.len(), chunk_size as nat) * ecc_len,
        forall|j: nat|
            j < num_chunks(source@.len(), chunk_size as nat) ==> #[trigger] block_at(
                r.parity@,
                ecc_len as nat,
                j,
            ) == parity_of(ecc_len as nat, chunk_at(source@, chunk_size as nat, j)),
{
    let ghost cs = chunk_size as nat;
    let ghost e = ecc_len as nat;
    let ghost n = num_chunks(source@.len(), cs);
    let mut primary: Vec<u8> = Vec::new();
    let mut parity: Vec<u8> = Vec::new();
    let mut pos: usize = 0;
    let mut i: usize = 0;
    proof {
        lemma_chunk_index(source@.len(), cs, 0);
    }
    while pos < source.len()
        invariant
            valid_params(cs, e),
            cs == chunk_size,
            e == ecc_len,
            n == num_chunks(source@.len(), cs),
            i <= n,
            pos == chunk_start(source@.len(), cs, i as nat),
            pos < source@.len() <==> i < n,
            primary@ == source@.take(pos as int),
            parity@ == parity_prefix(source@, cs, e, i as nat),
            parity@.len() == e * i,
            e * i == i * e,
            forall|j: nat|
                j < i ==> #[trigger] block_at(parity@, e, j) == parity_of(e, chunk_at(source@, cs, j)),
        decreases source@.len() - pos,
    {
        proof {
            lemma_chunk_index(source@.len(), cs, i as nat);
            lemma_chunk_index(source@.len(), cs, (i + 1) as nat);
            assert(i * cs >= i) by (nonlinear_arith)
                requires
                    cs >= 1,
            ;
        }
        let len = next_chunk(source.len(), pos, chunk_size);
        let chunk = slice_subrange(source, pos, pos + len);
        assert(chunk@ == chunk_at(source@, cs, i as nat));
        let block = encode_chunk(chunk, ecc_len);
        let ghost old_parity = parity@;
        append_bytes(&mut primary, chunk);
        append_bytes(&mut parity, block.as_slice());
        proof {
            assert(e * i == i * e && (i + 1) * e == i * e + e && e * (i + 1) == (i + 1) * e)
                by (nonlinear_arith);
            assert forall|j: nat| j < i + 1 implies #[trigger] block_at(parity@, e, j) == parity_of(
                e,
                chunk_at(source@, cs, j),
            ) by {
                if j < i {
                    assert((j + 1) * e <= i * e && (j + 1) * e == j * e + e) by (nonlinear_arith)
                        requires
                            j < i,
                    ;
                    assert(block_at(parity@, e, j) == block_at(old_parity, e, j));
                } else {
                    assert(block_at(parity@, e, j) == block@);
                }
            }
        }
        assert(primary@ == source@.take((pos + len) as int));
        assert(parity@.len() == e * (i + 1)) by (nonlinear_arith)
            requires
                parity@.len() == e * i + e,
        ;
        pos = pos + len;
        i = i + 1;
    }
    assert(primary@ == source@);
    assert(e * n == n * e) by (nonlinear_arith);
    Encoded { primary, parity }
}

/// Parity block `i` of a parity stream with `ecc_len`-byte blocks.
pub open spec fn block_at(parity: Seq<u8>, ecc_len: nat, i: nat) -> Seq<u8> {
    parity.subrange((i * ecc_len) as int, (i * ecc_len + ecc_len) as int)
}

/// The parity stream holds a whole block for chunk `i`.
pub open spec fn paired(parity: Seq<u8>, ecc_len: nat, i: nat) -> bool {
    i * ecc_len + ecc_len <= parity.len()
}

/// Codeword `i` as read back: chunk `i` of the primary stream followed by
/// parity block `i`.
pub open spec fn codeword_at(
    primary: Seq<u8>,
    parity: Seq<u8>,
    chunk_size: nat,
    ecc_len: nat,
    i: nat,
) -> Seq<u8> {
    chunk_at(primary, chunk_size, i) + block_at(parity, ecc_len, i)
}

/// Chunk `i` has its parity block and the engine corrects its codeword.
pub open spec fn chunk_repairable(
    primary: Seq<u8>,
    parity: Seq<u8>,
    chunk_size: nat,
    ecc_len: nat,
    i: nat,
) -> bool {
    paired(parity, ecc_len, i) && decoded(ecc_len, codeword_at(primary, parity, chunk_size, ecc_len, i))
        is Some
}

/// The corrected codeword `i`.
pub open spec fn repaired_codeword(
    primary: Seq<u8>,
    parity: Seq<u8>,
    chunk_size: nat,
    ecc_len: nat,
    i: nat,
) -> Seq<u8> {
    decoded(ecc_len, codeword_at(primary, parity, chunk_size, ecc_len, i))->0
}

/// The repaired data of the first `k` chunks.
pub open spec fn repaired_data(
    primary: Seq<u8>,
    parity: Seq<u8>,
    chunk_size: nat,
    ecc_len: nat,
    k: nat,
) -> Seq<u8>
    decreases k,
{
    if k == 0 {
        Seq::empty()
    } else {
        let i = (k - 1) as nat;
        repaired_data(primary, parity, chunk_size, ecc_len, i) + repaired_codeword(
            primary,
            parity,
            chunk_size,
            ecc_len,
            i,
        ).take(chunk_at(primary, chunk_size, i).len() as int)
    }
}

/// The parity recomputed for the first `k` repaired chunks.
pub open spec fn repaired_parity(
    primary: Seq<u8>,
    parity: Seq<u8>,
    chunk_size: nat,
    ecc_len: nat,
    k: nat,
) -> Seq<u8>
    decreases k,
{
    if k == 0 {
        Seq::empty()
    } else {
        let i = (k - 1) as nat;
        repaired_parity(primary, parity, chunk_size, ecc_len, i) + repaired_codeword(
            primary,
            parity,
            chunk_size,
            ecc_len,
            i,
        ).skip(chunk_at(primary, chunk_size, i).len() as int)
    }
}

/// Each of the first `k` codewords read back differs from the codeword of
/// the matching chunk of `original` in at most `ecc_len / 2` bytes.
pub open spec fn within_bound(
    original: Seq<u8>,
    primary: Seq<u8>,
    parity: Seq<u8>,
    chunk_size: nat,
    ecc_len: nat,
    k: nat,
) -> bool {
    forall|j: nat|
        j < k ==> #[trigger] diff_count(
            codeword(ecc_len, chunk_at(original, chunk_size, j)),
            codeword_at(primary, parity, chunk_size, ecc_len, j),
        ) <= ecc_len / 2
}

/// A parity stream whose first `k` blocks are the parity blocks of the first
/// `k` chunks of `s` begins with the parity prefix of `s`.
pub proof fn lemma_parity_blocks(s: Seq<u8>, parity: Seq<u8>, chunk_size: nat, ecc_len: nat, k: nat)
    requires
        k * ecc_len <= parity.len(),
        forall|j: nat|
            j < k ==> #[trigger] block_at(parity, ecc_len, j) == parity_of(
                ecc_len,
                chunk_at(s, chunk_size, j),
            ),
    ensures
        parity_prefix(s, chunk_size, ecc_len, k) == parity.take((k * ecc_len) as int),
    decreases k,
{
    if k > 0 {
        let i = (k - 1) as nat;
        assert(k * ecc_len == i * ecc_len + ecc_len) by (nonlinear_arith)
            requires
                i == k - 1,
        ;
        lemma_parity_blocks(s, parity, chunk_size, ecc_len, i);
        assert(block_at(parity, ecc_len, i) == parity_of(ecc_len, chunk_at(s, chunk_size, i)));
        assert(parity.take((i * ecc_len) as int) + block_at(parity, ecc_len, i) =~= parity.take(
            (k * ecc_len) as int,
        ));
    } else {
        assert(k * ecc_len == 0) by (nonlinear_arith)
            requires
                k == 0,
        ;
        assert(parity.take(0) =~= Seq::empty());
    }
}

/// A pair whose first `k` chunks equal those of `original` and whose first
/// `k` parity blocks are their parity blocks is within the correction bound
/// of `original` on those chunks.
pub proof fn lemma_clean_within_bound(
    original: Seq<u8>,
    primary: Seq<u8>,
    parity: Seq<u8>,
    chunk_size: nat,
    ecc_len: nat,
    k: nat,
)
    requires
        forall|j: nat|
            j < k ==> #[trigger] chunk_at(primary, chunk_size, j) == chunk_at(original, chunk_size, j)
                && block_at(parity, ecc_len, j) == parity_of(ecc_len, chunk_at(original, chunk_size, j)),
    ensures
        within_bound(original, primary, parity, chunk_size, ecc_len, k),
{
    assert forall|j: nat| j < k implies #[trigger] diff_count(
        codeword(ecc_len, chunk_at(original, chunk_size, j)),
        codeword_at(primary, parity, chunk_size, ecc_len, j),
    ) <= ecc_len / 2 by {
        assert(chunk_at(primary, chunk_size, j) == chunk_at(original, chunk_size, j));
        lemma_diff_count_self(codeword(ecc_len, chunk_at(original, chunk_size, j)));
    }
}

/// A parity stream cut after `m` whole blocks keeps those blocks, and holds
/// `m` blocks by the count the repair run makes.
pub proof fn lemma_truncated_parity(parity: Seq<u8>, ecc_len: nat, m: nat)
    requires
        ecc_len > 0,
        m * ecc_len <= parity.len(),
    ensures
        parity.take((m * ecc_len) as int).len() / ecc_len as nat == m,
        !paired(parity.take((m * ecc_len) as int), ecc_len, m),
        forall|j: nat|
            j < m ==> #[trigger] block_at(parity.take((m * ecc_len) as int), ecc_len, j) == block_at(
                parity,
                ecc_len,
                j,
            ),
{
    lemma_div_multiples_vanish(m as int, ecc_len as int);
    assert(m * ecc_len == ecc_len * m) by (nonlinear_arith);
    assert forall|j: nat| j < m implies #[trigger] block_at(parity.take((m * ecc_len) as int), ecc_len, j)
        == block_at(parity, ecc_len, j) by {
        assert((j + 1) * ecc_len <= m * ecc_len && (j + 1) * ecc_len == j * ecc_len + ecc_len)
            by (nonlinear_arith)
            requires
                j < m,
        ;
        assert(block_at(parity.take((m * ecc_len) as int), ecc_len, j) =~= block_at(parity, ecc_len, j));
    }
}

/// Changing one byte of the primary stream adds at most one damaged byte to
/// the codeword of the chunk that holds it, and none to any other codeword.
pub proof fn lemma_primary_byte_damage(
    original: Seq<u8>,
    primary: Seq<u8>,
    parity: Seq<u8>,
    chunk_size: nat,
    ecc_len: nat,
    pos: int,
    v: u8,
    j: nat,
)
    requires
        chunk_size > 0,
        0 <= pos < primary.len(),
        j * ecc_len + ecc_len <= parity.len(),
    ensures
        diff_count(
            codeword(ecc_len, chunk_at(original, chunk_size, j)),
            codeword_at(primary.update(pos, v), parity, chunk_size, ecc_len, j),
        ) <= diff_count(
            codeword(ecc_len, chunk_at(original, chunk_size, j)),
            codeword_at(primary, parity, chunk_size, ecc_len, j),
        ) + if chunk_start(primary.len(), chunk_size, j) <= pos < chunk_start(
            primary.len(),
            chunk_size,
            j + 1,
        ) {
            1int
        } else {
            0int
        },
{
    let a = codeword(ecc_len, chunk_at(original, chunk_size, j));
    let b = codeword_at(primary, parity, chunk_size, ecc_len, j);
    let b2 = codeword_at(primary.update(pos, v), parity, chunk_size, ecc_len, j);
    let lo = chunk_start(primary.len(), chunk_size, j) as int;
    let hi = chunk_start(primary.len(), chunk_size, j + 1) as int;
    lemma_chunk_index(primary.len(), chunk_size, j);
    if lo <= pos < hi {
        assert(b2 =~= b.update(pos - lo, v));
        lemma_diff_count_update(a, b, pos - lo, v);
    } else {
        assert(b2 =~= b);
    }
}

/// Changing one byte of the parity stream adds at most one damaged byte to
/// the codeword whose parity block holds it, and none to any other codeword.
pub proof fn lemma_parity_byte_damage(
    original: Seq<u8>,
    primary: Seq<u8>,
    parity: Seq<u8>,
    chunk_size: nat,
    ecc_len: nat,
    pos: int,
    v: u8,
    j: nat,
)
    requires
        0 <= pos < parity.len(),
        j * ecc_len + ecc_len <= parity.len(),
    ensures
        diff_count(
            codeword(ecc_len, chunk_at(original, chunk_size, j)),
            codeword_at(primary, parity.update(pos, v), chunk_size, ecc_len, j),
        ) <= diff_count(
            codeword(ecc_len, chunk_at(original, chunk_size, j)),
            codeword_at(primary, parity, chunk_size, ecc_len, j),
        ) + if j * ecc_len <= pos < j * ecc_len + ecc_len {
            1int
        } else {
            0int
        },
{
    let a = codeword(ecc_len, chunk_at(original, chunk_size, j));
    let b = codeword_at(primary, parity, chunk_size, ecc_len, j);
    let b2 = codeword_at(primary, parity.update(pos, v), chunk_size, ecc_len, j);
    let c = chunk_at(primary, chunk_size, j);
    let lo = (j * ecc_len) as int;
    if lo <= pos < lo + ecc_len {
        assert(b2 =~= b.update(c.len() + pos - lo, v));
        lemma_diff_count_update(a, b, c.len() + pos - lo, v);
    } else {
        assert(b2 =~= b);
    }
}

/// Why a repair run stopped before the end of the primary stream.
#[derive(Debug, Clone, Copy, PartialEq, Eq, Structural)]
pub enum RepairError {
    /// The parity stream has no whole block for this chunk.
    Misaligned { chunk: usize },
    /// The engine could not correct this chunk.
    Uncorrectable { chunk: usize },
}

/// The output of a repair run: the repaired primary stream and the parity
/// recomputed for it, up to the chunk where the run stopped, and why it
/// stopped early, if it did.
#[derive(Debug)]
pub struct Repaired {
    pub data: Vec<u8>,
    pub parity: Vec<u8>,
    pub error: Option<RepairError>,
}

impl Repaired {
    /// The number of chunks this run repaired, out of `n`.
    pub open spec fn chunks_done(&self, n: nat) -> nat {
        match self.error {
            None => n,
            Some(RepairError::Misaligned { chunk }) => chunk as nat,
            Some(RepairError::Uncorrectable { chunk }) => chunk as nat,
        }
    }
}

/// Repairs a primary stream from its parity stream, chunk by chunk, and
/// recomputes the parity of the repaired data. The run stops at the end of
/// the primary stream, at the first chunk without a whole parity block
/// (`Misaligned`), or at the first chunk the engine cannot correct
/// (`Uncorrectable`); what was repaired before that point is kept.
///
/// Chunks whose codewords are each damaged in at most `ecc_len / 2` bytes
/// are restored exactly, with their original parity blocks, and the run gets
/// past all of them; an undamaged pair comes back unchanged.
pub fn repair(primary: &[u8], parity: &[u8], chunk_size: usize, ecc_len: usize) -> (r: Repaired)
    requires
        valid_params(chunk_size as nat, ecc_len as nat),
    ensures
        r.chunks_done(num_chunks(primary@.len(), chunk_size as nat)) <= num_chunks(
            primary@.len(),
            chunk_size as nat,
        ),
        r.error is Some ==> r.chunks_done(num_chunks(primary@.len(), chunk_size as nat)) < num_chunks(
            primary@.len(),
            chunk_size as nat,
        ),
        forall|j: nat|
            j < r.chunks_done(num_chunks(primary@.len(), chunk_size as nat)) ==> #[trigger] chunk_repairable(
                primary@,
                parity@,
                chunk_size as nat,
                ecc_len as nat,
                j,
            ),
        r.error matches Some(RepairError::Misaligned { chunk }) ==> !paired(
            parity@,
            ecc_len as nat,
            chunk as nat,
        ),
        r.error matches Some(RepairError::Uncorrectable { chunk }) ==> paired(
            parity@,
            ecc_len as nat,
            chunk as nat,
        ) && decoded(
            ecc_len as nat,
            codeword_at(primary@, parity@, chunk_size as nat, ecc_len as nat, chunk as nat),
        ) is None,
        r.data@ == repaired_data(
            primary@,
            parity@,
            chunk_size as nat,
            ecc_len as nat,
            r.chunks_done(num_chunks(primary@.len(), chunk_size as nat)),
        ),
        r.parity@ == repaired_parity(
            primary@,
            parity@,
            chunk_size as nat,
            ecc_len as nat,
            r.chunks_done(num_chunks(primary@.len(), chunk_size as nat)),
        ),
        r.data@.len() == chunk_start(
            primary@.len(),
            chunk_size as nat,
            r.chunks_done(num_chunks(primary@.len(), chunk_size as nat)),
        ),
        r.parity@.len() == r.chunks_done(num_chunks(primary@.len(), chunk_size as nat)) * ecc_len,
        forall|j: nat|
            j < r.chunks_done(num_chunks(primary@.len(), chunk_size as nat)) ==> #[trigger] block_at(
                r.parity@,
                ecc_len as nat,
                j,
            ) == parity_of(
                ecc_len as nat,
                r.data@.subrange(
                    chunk_start(primary@.len(), chunk_size as nat, j) as int,
                    chunk_start(primary@.len(), chunk_size as nat, j + 1) as int,
                ),
            ),
        forall|original: Seq<u8>, k: nat|
            original.len() == primary@.len() && k <= num_chunks(primary@.len(), chunk_size as nat) && k
                * ecc_len <= parity@.len() && #[trigger] within_bound(
                original,
                primary@,
                parity@,
                chunk_size as nat,
                ecc_len as nat,
                k,
            ) ==> k <= r.chunks_done(num_chunks(primary@.len(), chunk_size as nat)) && r.data@.take(
                chunk_start(primary@.len(), chunk_size as nat, k) as int,
            ) == original.take(chunk_start(primary@.len(), chunk_size as nat, k) as int)
                && r.parity@.take((k * ecc_len) as int) == parity_prefix(
                original,
                chunk_size as nat,
                ecc_len as nat,
                k,
            ),
        forall|original: Seq<u8>|
            original.len() == primary@.len() && parity@.len() == num_chunks(
                primary@.len(),
                chunk_size as nat,
            ) * ecc_len && #[trigger] within_bound(
                original,
                primary@,
                parity@,
                chunk_size as nat,
                ecc_len as nat,
                num_chunks(primary@.len(), chunk_size as nat),
            ) ==> r.error is None && r.data@ == original && r.parity@ == encoded_parity(
                original,
                chunk_size as nat,
                ecc_len as nat,
            ),
        forall|original: Seq<u8>|
            r.error matches Some(RepairError::Uncorrectable { .. }) && original.len() == primary@.len()
                && #[trigger] within_bound(
                original,
                primary@,
                parity@,
                chunk_size as nat,
                ecc_len as nat,
                r.chunks_done(num_chunks(primary@.len(), chunk_size as nat)),
            ) ==> r.data@ == original.take(
                chunk_start(
                    primary@.len(),
                    chunk_size as nat,
                    r.chunks_done(num_chunks(primary@.len(), chunk_size as nat)),
                ) as int,
            ) && r.parity@ == parity_prefix(
                original,
                chunk_size as nat,
                ecc_len as nat,
                r.chunks_done(num_chunks(primary@.len(), chunk_size as nat)),
            ),
        forall|original: Seq<u8>|
            ecc_len > 0 && parity@.len() < num_chunks(primary@.len(), chunk_size as nat) * ecc_len
                && original.len() == primary@.len() && #[trigger] within_bound(
                original,
                primary@,
                parity@,
                chunk_size as nat,
                ecc_len as nat,
                parity@.len() / ecc_len as nat,
            ) ==> (r.error matches Some(RepairError::Misaligned { chunk }) && chunk == parity@.len()
                / ecc_len as nat) && r.data@ == original.take(
                chunk_start(
                    primary@.len(),
                    chunk_size as nat,
                    parity@.len() / ecc_len as nat,
                ) as int,
            ) && r.parity@ == parity_prefix(
                original,
                chunk_size as nat,
                ecc_len as nat,
                parity@.len() / ecc_len as nat,
            ),
        parity@.len() == num_chunks(primary@.len(), chunk_size as nat) * ecc_len && (forall|j: nat|
            j < num_chunks(primary@.len(), chunk_size as nat) ==> #[trigger] block_at(
                parity@,
                ecc_len as nat,
                j,
            ) == parity_of(ecc_len as nat, chunk_at(primary@, chunk_size as nat, j))) ==> r.error is None
            && r.data@ == primary@ && r.parity@ == parity@,
{
    let r = run_repair(primary, parity, chunk_size, ecc_len);
    let ghost cs = chunk_size as nat;
    let ghost e = ecc_len as nat;
    let ghost len = primary@.len();
    let ghost n = num_chunks(len, cs);
    let ghost k = r.chunks_done(n);
    proof {
        lemma_chunk_index(len, cs, n);
        lemma_chunk_index(len, cs, k);
        assert forall|original: Seq<u8>, k2: nat|
            original.len() == len && k2 <= n && k2 * e <= parity@.len() && #[trigger] within_bound(
                original,
                primary@,
                parity@,
                cs,
                e,
                k2,
            ) implies k2 <= k && r.data@.take(chunk_start(len, cs, k2) as int) == original.take(
                chunk_start(len, cs, k2) as int,
            ) && r.parity@.take((k2 * e) as int) == parity_prefix(original, cs, e, k2) by {
            assert(restores(original, primary@, parity@, cs, e, r.data@, r.parity@, n));
            if k2 > k {
                assert(k < n);
                assert(k2 * e >= (k + 1) * e && (k + 1) * e == k * e + e) by (nonlinear_arith)
                    requires
                        k2 > k,
                ;
                assert(paired(parity@, e, k));
                let d = chunk_at(original, cs, k);
                assert(diff_count(codeword(e, d), codeword_at(primary@, parity@, cs, e, k)) <= e / 2);
            }
        }
        assert forall|original: Seq<u8>|
            original.len() == len && parity@.len() == n * e && #[trigger] within_bound(
                original,
                primary@,
                parity@,
                cs,
                e,
                n,
            ) implies r.error is None && r.data@ == original && r.parity@ == encoded_parity(
                original,
                cs,
                e,
            ) by {
            assert(within_bound(original, primary@, parity@, cs, e, n));
            assert(k == n);
            assert(r.data@.take(len as int) == r.data@);
            assert(original.take(len as int) == original);
            assert(r.parity@.take((n * e) as int) == r.parity@);
        }
        assert forall|original: Seq<u8>|
            r.error matches Some(RepairError::Uncorrectable { .. }) && original.len() == len
                && #[trigger] within_bound(original, primary@, parity@, cs, e, k) implies r.data@
            == original.take(chunk_start(len, cs, k) as int) && r.parity@ == parity_prefix(
            original,
            cs,
            e,
            k,
        ) by {
            assert(paired(parity@, e, k));
            assert(k * e <= k * e + e);
            assert(within_bound(original, primary@, parity@, cs, e, k));
            assert(r.data@.take(r.data@.len() as int) == r.data@);
            assert(r.parity@.take(r.parity@.len() as int) == r.parity@);
        }
        if e > 0 && parity@.len() < n * e {
            let m = parity@.len() / e;
            assert(m * e <= parity@.len() && parity@.len() < m * e + e) by (nonlinear_arith)
                requires
                    e > 0,
                    m == parity@.len() / e,
            ;
            assert(m < n) by (nonlinear_arith)
                requires
                    parity@.len() < n * e,
                    m * e <= parity@.len(),
            ;
            assert forall|original: Seq<u8>|
                original.len() == len && #[trigger] within_bound(original, primary@, parity@, cs, e, m)
                implies (r.error matches Some(RepairError::Misaligned { chunk }) && chunk
                == parity@.len() / e) && r.data@ == original.take(chunk_start(len, cs, m) as int)
                && r.parity@ == parity_prefix(original, cs, e, m) by {
                assert(within_bound(original, primary@, parity@, cs, e, m));
                if k > m {
                    assert(chunk_repairable(primary@, parity@, cs, e, m));
                }
                assert(k == m);
                assert(r.data@.take(r.data@.len() as int) == r.data@);
                assert(r.parity@.take(r.parity@.len() as int) == r.parity@);
            }
        }
        if parity@.len() == n * e && (forall|j: nat|
            j < n ==> #[trigger] block_at(parity@, e, j) == parity_of(e, chunk_at(primary@, cs, j))) {
            assert forall|j: nat| j < n implies #[trigger] diff_count(
                codeword(e, chunk_at(primary@, cs, j)),
                codeword_at(primary@, parity@, cs, e, j),
            ) <= e / 2 by {
                assert(block_at(parity@, e, j) == parity_of(e, chunk_at(primary@, cs, j)));
                lemma_diff_count_self(codeword(e, chunk_at(primary@, cs, j)));
            }
            assert(within_bound(primary@, primary@, parity@, cs, e, n));
            lemma_parity_blocks(primary@, parity@, cs, e, n);
            assert(parity@.take((n * e) as int) == parity@);
        }
    }
    r
}

/// Everything `original` owes to the first `k2` chunks of a run that has
/// produced `data` and `new_parity`, for every `k2` up to `k` whose codewords
/// are within the correction bound.
spec fn restores(
    original: Seq<u8>,
    primary: Seq<u8>,
    parity: Seq<u8>,
    chunk_size: nat,
    ecc_len: nat,
    data: Seq<u8>,
    new_parity: Seq<u8>,
    k: nat,
) -> bool {
    forall|k2: nat|
        k2 <= k && k2 * ecc_len <= parity.len() && #[trigger] within_bound(
            original,
            primary,
            parity,
            chunk_size,
            ecc_len,
            k2,
        ) ==> data.take(chunk_start(primary.len(), chunk_size, k2) as int) == original.take(
            chunk_start(primary.len(), chunk_size, k2) as int,
        ) && new_parity.take((k2 * ecc_len) as int) == parity_prefix(original, chunk_size, ecc_len, k2)
}

/// The repair loop: corrects chunk after chunk until the primary stream
/// ends, a parity block is missing, or a chunk cannot be corrected.
fn run_repair(primary: &[u8], parity: &[u8], chunk_size: usize, ecc_len: usize) -> (r: Repaired)
    requires
        valid_params(chunk_size as nat, ecc_len as nat),
    ensures
        r.chunks_done(num_chunks(primary@.len(), chunk_size as nat)) <= num_chunks(
            primary@.len(),
            chunk_size as nat,
        ),
        r.error is Some ==> r.chunks_done(num_chunks(primary@.len(), chunk_size as nat)) < num_chunks(
            primary@.len(),
            chunk_size as nat,
        ),
        forall|j: nat|
            j < r.chunks_done(num_chunks(primary@.len(), chunk_size as nat)) ==> #[trigger] chunk_repairable(
                primary@,
                parity@,
                chunk_size as nat,
                ecc_len as nat,
                j,
            ),
        r.error matches Some(RepairError::Misaligned { chunk }) ==> !paired(
            parity@,
            ecc_len as nat,
            chunk as nat,
        ),
        r.error matches Some(RepairError::Uncorrectable { chunk }) ==> paired(
            parity@,
            ecc_len as nat,
            chunk as nat,
        ) && decoded(
            ecc_len as nat,
            codeword_at(primary@, parity@, chunk_size as nat, ecc_len as nat, chunk as nat),
        ) is None,
        r.data@ == repaired_data(
            primary@,
            parity@,
            chunk_size as nat,
            ecc_len as nat,
            r.chunks_done(num_chunks(primary@.len(), chunk_size as nat)),
        ),
        r.parity@ == repaired_parity(
            primary@,
            parity@,
            chunk_size as nat,
            ecc_len as nat,
            r.chunks_done(num_chunks(primary@.len(), chunk_size as nat)),
        ),
        r.data@.len() == chunk_start(
            primary@.len(),
            chunk_size as nat,
            r.chunks_done(num_chunks(primary@.len(), chunk_size as nat)),
        ),
        r.parity@.len() == r.chunks_done(num_chunks(primary@.len(), chunk_size as nat)) * ecc_len,
        forall|j: nat|
            j < r.chunks_done(num_chunks(primary@.len(), chunk_size as nat)) ==> #[trigger] block_at(
                r.parity@,
                ecc_len as nat,
                j,
            ) == parity_of(
                ecc_len as nat,
                r.data@.subrange(
                    chunk_start(primary@.len(), chunk_size as nat, j) as int,
                    chunk_start(primary@.len(), chunk_size as nat, j + 1) as int,
                ),
            ),
        forall|original: Seq<u8>|
            original.len() == primary@.len() ==> #[trigger] restores(
                original,
                primary@,
                parity@,
                chunk_size as nat,
                ecc_len as nat,
                r.data@,
                r.parity@,
                num_chunks(primary@.len(), chunk_size as nat),
            ),
        forall|original: Seq<u8>, k: nat|
            original.len() == primary@.len() && k <= num_chunks(primary@.len(), chunk_size as nat) && k
                * ecc_len <= parity@.len() && #[trigger] within_bound(
                original,
                primary@,
                parity@,
                chunk_size as nat,
                ecc_len as nat,
                k,
            ) ==> k <= r.chunks_done(num_chunks(primary@.len(), chunk_size as nat)),
{
    let ghost cs = chunk_size as nat;
    let ghost e = ecc_len as nat;
    let ghost n = num_chunks(primary@.len(), cs);
    let mut data: Vec<u8> = Vec::new();
    let mut new_parity: Vec<u8> = Vec::new();
    let mut pos: usize = 0;
    let mut ppos: usize = 0;
    let mut i: usize = 0;
    proof {
        lemma_chunk_index(primary@.len(), cs, 0);
        assert forall|original: Seq<u8>| original.len() == primary@.len() implies #[trigger] restores(
            original, primary@, parity@, cs, e, data@, new_parity@, 0) by {
            assert(data@.take(0) == original.take(0));
            assert(new_parity@.take(0) == parity_prefix(original, cs, e, 0));
        }
    }
    while pos < primary.len()
        invariant
            valid_params(cs, e),
            cs == chunk_size,
            e == ecc_len,
            n == num_chunks(primary@.len(), cs),
            i <= n,
            pos == chunk_start(primary@.len(), cs, i as nat),
            pos < primary@.len() <==> i < n,
            ppos == i * e,
            ppos <= parity@.len(),
            forall|j: nat| j < i ==> #[trigger] chunk_repairable(primary@, parity@, cs, e, j),
            data@ == repaired_data(primary@, parity@, cs, e, i as nat),
            new_parity@ == repaired_parity(primary@, parity@, cs, e, i as nat),
            data@.len() == pos,
            new_parity@.len() == ppos,
            e * (i as nat) == (i as nat) * e,
            forall|j: nat|
                j < i ==> #[trigger] block_at(new_parity@, e, j) == parity_of(
                    e,
                    data@.subrange(
                        chunk_start(primary@.len(), cs, j) as int,
                        chunk_start(primary@.len(), cs, j + 1) as int,
                    ),
                ),
            forall|original: Seq<u8>|
                original.len() == primary@.len() ==> #[trigger] restores(
                    original,
                    primary@,
                    parity@,
                    cs,
                    e,
                    data@,
                    new_parity@,
                    i as nat,
                ),
        decreases primary@.len() - pos,
    {
        proof {
            lemma_chunk_index(primary@.len(), cs, i as nat);
            lemma_chunk_index(primary@.len(), cs, (i + 1) as nat);
            assert(i * cs >= i) by (nonlinear_arith)
                requires
                    cs >= 1,
            ;
            assert((i + 1) * e == i * e + e) by (nonlinear_arith);
            assert(e * (i + 1) == (i + 1) * e) by (nonlinear_arith);
        }
        let len = next_chunk(primary.len(), pos, chunk_size);
        let chunk = slice_subrange(primary, pos, pos + len);
        assert(chunk@ == chunk_at(primary@, cs, i as nat));
        if parity.len() - ppos < ecc_len {
            let r = Repaired { data, parity: new_parity, error: Some(RepairError::Misaligned { chunk: i }) };
            proof {
                assert forall|original: Seq<u8>, k2: nat|
                    original.len() == primary@.len() && k2 <= n && k2 * e <= parity@.len()
                    && #[trigger] within_bound(original, primary@, parity@, cs, e, k2) implies k2 <= i by {
                    if k2 > i {
                        assert(k2 * e >= (i + 1) * e) by (nonlinear_arith)
                            requires
                                k2 > i,
                        ;
                    }
                }
                assert forall|original: Seq<u8>| original.len() == primary@.len() implies #[trigger] restores(
                    original, primary@, parity@, cs, e, r.data@, r.parity@, n) by {
                    assert(restores(original, primary@, parity@, cs, e, r.data@, r.parity@, i as nat));
                }
            }
            return r;
        }
        let block = slice_subrange(parity, ppos, ppos + ecc_len);
        assert(block@ == block_at(parity@, e, i as nat));
        assert(codeword_at(primary@, parity@, cs, e, i as nat) == chunk@ + block@);
        match correct_chunk(chunk, block, ecc_len) {
            None => {
                let r = Repaired { data, parity: new_parity, error: Some(RepairError::Uncorrectable { chunk: i }) };
                proof {
                    assert forall|original: Seq<u8>, k2: nat|
                        original.len() == primary@.len() && k2 <= n && k2 * e <= parity@.len()
                        && #[trigger] within_bound(original, primary@, parity@, cs, e, k2) implies k2 <= i by {
                        {
                            if k2 > i {
                                let d = chunk_at(original, cs, i as nat);
                                assert(diff_count(codeword(e, d), codeword_at(primary@, parity@, cs, e, i as nat)) <= e / 2);
                                assert(diff_count(codeword(e, d), chunk@ + block@) <= e / 2);
                            }
                        }
                    }
                    assert forall|original: Seq<u8>| original.len() == primary@.len() implies #[trigger] restores(
                        original, primary@, parity@, cs, e, r.data@, r.parity@, n) by {
                        assert(restores(original, primary@, parity@, cs, e, r.data@, r.parity@, i as nat));
                    }
                }
                return r;
            },
            Some((d, p)) => {
                let ghost old_data = data@;
                let ghost old_parity = new_parity@;
                append_bytes(&mut data, d.as_slice());
                append_bytes(&mut new_parity, p.as_slice());
                proof {
                    assert(codeword_at(primary@, parity@, cs, e, i as nat) == chunk@ + block@);
                    assert(repaired_codeword(primary@, parity@, cs, e, i as nat) == d@ + p@);
                    assert((d@ + p@).take(chunk@.len() as int) == d@);
                    assert((d@ + p@).skip(chunk@.len() as int) == p@);
                    assert(chunk_repairable(primary@, parity@, cs, e, i as nat));
                    assert forall|j: nat| j < i + 1 implies #[trigger] block_at(new_parity@, e, j)
                        == parity_of(
                        e,
                        data@.subrange(
                            chunk_start(primary@.len(), cs, j) as int,
                            chunk_start(primary@.len(), cs, j + 1) as int,
                        ),
                    ) by {
                        lemma_chunk_index(primary@.len(), cs, j);
                        if j < i {
                            lemma_chunk_start_monotonic(primary@.len(), cs, j + 1, i as nat);
                            assert((j + 1) * e <= i * e && (j + 1) * e == j * e + e) by (nonlinear_arith)
                                requires
                                    j < i,
                            ;
                            assert(block_at(new_parity@, e, j) == block_at(old_parity, e, j));
                            assert(data@.subrange(
                                chunk_start(primary@.len(), cs, j) as int,
                                chunk_start(primary@.len(), cs, j + 1) as int,
                            ) == old_data.subrange(
                                chunk_start(primary@.len(), cs, j) as int,
                                chunk_start(primary@.len(), cs, j + 1) as int,
                            ));
                        } else {
                            assert(block_at(new_parity@, e, j) == p@);
                            assert(data@.subrange(pos as int, (pos + len) as int) == d@);
                        }
                    }
                    assert forall|original: Seq<u8>| original.len() == primary@.len() implies #[trigger] restores(
                        original, primary@, parity@, cs, e, data@, new_parity@, (i + 1) as nat) by {
                        assert(restores(original, primary@, parity@, cs, e, old_data, old_parity, i as nat));
                        assert forall|k2: nat|
                            k2 <= i + 1 && k2 * e <= parity@.len() && #[trigger] within_bound(original, primary@, parity@, cs, e, k2)
                            implies data@.take(chunk_start(primary@.len(), cs, k2) as int) == original.take(
                                chunk_start(primary@.len(), cs, k2) as int)
                                && new_parity@.take((k2 * e) as int) == parity_prefix(original, cs, e, k2) by {
                            lemma_chunk_index(primary@.len(), cs, k2);
                            if k2 <= i {
                                assert(k2 * e <= i * e) by (nonlinear_arith)
                                    requires
                                        k2 <= i,
                                ;
                                lemma_chunk_start_monotonic(primary@.len(), cs, k2, i as nat);
                                assert(data@.take(chunk_start(primary@.len(), cs, k2) as int)
                                    == old_data.take(chunk_start(primary@.len(), cs, k2) as int));
                                assert(new_parity@.take((k2 * e) as int) == old_parity.take((k2 * e) as int));
                            } else {
                                assert(within_bound(original, primary@, parity@, cs, e, i as nat));
                                let od = chunk_at(original, cs, i as nat);
                                assert(diff_count(codeword(e, od), codeword_at(primary@, parity@, cs, e, i as nat)) <= e / 2);
                                assert(diff_count(codeword(e, od), chunk@ + block@) <= e / 2);
                                assert(d@ == od);
                                assert(old_data.take(pos as int) == old_data);
                                assert(old_parity.take((i * e) as int) == old_parity);
                                assert(data@ == original.take(pos as int) + od);
                                assert(original.take(pos as int) + od == original.take((pos + len) as int));
                                assert(data@.take(data@.len() as int) == data@);
                                assert(new_parity@.take(new_parity@.len() as int) == new_parity@);
                            }
                        }
                    }
                }
                pos = pos + len;
                ppos = ppos + ecc_len;
                i = i + 1;
            },
        }
    }
    Repaired { data, parity: new_parity, error: None }
}

} // verus!
