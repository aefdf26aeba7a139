//! The codeword engine: a systematic Reed-Solomon code over GF(256) with a
//! parity length chosen per call, provided by the `reed_solomon` crate.
use vstd::prelude::*;
use reed_solomon::Decoder;
use reed_solomon::Encoder;
use vstd::slice::slice_subrange;
use vstd::slice::slice_to_vec;
use crate::chunk::append_bytes;

verus! {

/// The parity block that the Reed-Solomon encoder computes for `data` with
/// `ecc_len` parity bytes.
pub uninterp spec fn parity_of(ecc_len: nat, data: Seq<u8>) -> Seq<u8>;

/// What the Reed-Solomon decoder makes of the codeword `block` whose last
/// `ecc_len` bytes are parity: the corrected codeword, or `None` when it
/// reports too many errors.
pub uninterp spec fn decoded(ecc_len: nat, block: Seq<u8>) -> Option<Seq<u8>>;

/// The number of positions at which two byte sequences differ.
pub open spec fn diff_count(a: Seq<u8>, b: Seq<u8>) -> nat
    decreases a.len(),
{
    if a.len() == 0 || b.len() == 0 {
        0
    } else {
        (if a[0] != b[0] { 1nat } else { 0nat }) + diff_count(a.drop_first(), b.drop_first())
    }
}

/// A sequence differs from itself nowhere.
pub proof fn lemma_diff_count_self(a: Seq<u8>)
    ensures
        diff_count(a, a) == 0,
    decreases a.len(),
{
    if a.len() > 0 {
        lemma_diff_count_self(a.drop_first());
    }
}

/// Changing one byte of `b` changes its distance to `a` by at most one.
pub proof fn lemma_diff_count_update(a: Seq<u8>, b: Seq<u8>, i: int, v: u8)
    requires
        0 <= i < b.len(),
    ensures
        diff_count(a, b.update(i, v)) <= diff_count(a, b) + 1,
    decreases a.len(),
{
    if a.len() == 0 {
    } else if i > 0 {
        lemma_diff_count_update(a.drop_first(), b.drop_first(), i - 1, v);
        assert(b.update(i, v).drop_first() =~= b.drop_first().update(i - 1, v));
    } else {
        assert(b.update(i, v).drop_first() =~= b.drop_first());
    }
}

/// The valid codeword whose data part is `data`.
pub open spec fn codeword(ecc_len: nat, data: Seq<u8>) -> Seq<u8> {
    data + parity_of(ecc_len, data)
}

/// The largest codeword the engine handles: 255 bytes, data and parity together.
pub const MAX_CODEWORD: usize = 255;

/// Relies on `reed_solomon::Encoder::new` and `Encoder::encode`: the encoded
/// buffer is the data followed by exactly `ecc_len` parity bytes, which depend
/// on the data and `ecc_len` alone. A buffer over 256 bytes would overflow
/// the crate's fixed polynomial storage.
#[verifier::external_body]
fn rs_parity(ecc_len: usize, data: &[u8]) -> (r: Vec<u8>)
    requires
        data@.len() + ecc_len <= MAX_CODEWORD,
    ensures
        r@ == parity_of(ecc_len as nat, data@),
        r@.len() == ecc_len,
{
    Encoder::new(ecc_len).encode(data).ecc().to_vec()
}

/// Relies on `reed_solomon::Decoder::new` and `Decoder::correct` without
/// erasures. On success the decoder has checked that every syndrome of the
/// returned buffer is zero, so it is the codeword of its own data part; its
/// length is that of the input. A Reed-Solomon code with `ecc_len` parity
/// symbols corrects any pattern of at most `ecc_len / 2` symbol errors. The
/// decoder asserts that the buffer is shorter than 256 bytes, and on the
/// correcting path it multiplies the `ecc_len + 1` syndromes by an error
/// locator of up to `ecc_len / 2 + 1` terms in a 256-byte polynomial, so
/// `ecc_len + ecc_len / 2` must stay within a codeword too.
#[verifier::external_body]
fn rs_correct(ecc_len: usize, block: &[u8]) -> (r: Option<Vec<u8>>)
    requires
        ecc_len <= block@.len() <= MAX_CODEWORD,
        ecc_len + ecc_len / 2 <= MAX_CODEWORD,
    ensures
        match r {
            Some(v) => decoded(ecc_len as nat, block@) == Some(v@),
            None => decoded(ecc_len as nat, block@) is None,
        },
        r is Some ==> r->0@.len() == block@.len() && r->0@ == codeword(
            ecc_len as nat,
            r->0@.take(block@.len() - ecc_len),
        ),
        forall|d: Seq<u8>|
            d.len() + ecc_len == block@.len() && #[trigger] diff_count(codeword(ecc_len as nat, d), block@)
                <= ecc_len / 2 ==> r is Some && r->0@ == codeword(ecc_len as nat, d),
{
    match Decoder::new(ecc_len).correct(block, None) {
        Ok(buffer) => Some(buffer.to_vec()),
        Err(_) => None,
    }
}

/// The parity block of one chunk of data.
pub fn encode_chunk(data: &[u8], ecc_len: usize) -> (r: Vec<u8>)
    requires
        data@.len() + ecc_len <= MAX_CODEWORD,
    ensures
        r@ == parity_of(ecc_len as nat, data@),
        r@.len() == ecc_len,
{
    rs_parity(ecc_len, data)
}

/// Corrects the codeword made of `data` followed by `parity`. On success the
/// result is the corrected data, of the same length as `data`, and the parity
/// recomputed for it; `None` when the engine finds the damage beyond repair.
/// A codeword with at most `ecc_len / 2` damaged bytes is always restored.
pub fn correct_chunk(data: &[u8], parity: &[u8], ecc_len: usize) -> (r: Option<(Vec<u8>, Vec<u8>)>)
    requires
        parity@.len() == ecc_len,
        data@.len() + ecc_len <= MAX_CODEWORD,
        ecc_len + ecc_len / 2 <= MAX_CODEWORD,
    ensures
        match r {
            Some((d, p)) => {
                &&& decoded(ecc_len as nat, data@ + parity@) == Some(d@ + p@)
                &&& d@.len() == data@.len()
                &&& p@.len() == ecc_len
                &&& p@ == parity_of(ecc_len as nat, d@)
            },
            None => decoded(ecc_len as nat, data@ + parity@) is None,
        },
        forall|d: Seq<u8>|
            d.len() == data@.len() && #[trigger] diff_count(codeword(ecc_len as nat, d), data@ + parity@)
                <= ecc_len / 2 ==> (r matches Some((dd, pp)) && dd@ == d && pp@ == parity_of(
                ecc_len as nat,
                d,
            )),
{
    let mut block: Vec<u8> = Vec::new();
    append_bytes(&mut block, data);
    append_bytes(&mut block, parity);
    assert(block@ == data@ + parity@);
    match rs_correct(ecc_len, block.as_slice()) {
        Some(w) => {
            let n = data.len();
            let d = slice_to_vec(slice_subrange(w.as_slice(), 0, n));
            let p = slice_to_vec(slice_subrange(w.as_slice(), n, w.len()));
            assert(w@ == d@ + p@);
            assert(d@ == w@.take(n as int));
            assert(p@ == parity_of(ecc_len as nat, d@));
            Some((d, p))
        },
        None => None,
    }
}

} // verus!
