//! Compression as the dictionary stage followed by the entropy stage, and
//! decompression as the two undone in reverse order.
use vstd::prelude::*;
use crate::codec::{hc_decode_spec, hc_encoded, hc_encode, hc_decode, lemma_hc_round_trip};
use crate::error::CodecError;
use crate::lz::LzConfig;
use crate::tokens::{lz_tokens, lz_decode_spec, lz_encode, lz_decode, lemma_lz_round_trip};

verus! {

/// What `blob` decompresses to; `None` when it is malformed.
pub open spec fn decompress_spec(cfg: LzConfig, blob: Seq<u8>) -> Option<Seq<u8>> {
    match hc_decode_spec(blob) {
        Some(t) => lz_decode_spec(cfg, t),
        None => None,
    }
}

/// `blob` is the compressed form of `x`: the Huffman encoding of its token
/// stream.
pub open spec fn is_compression_of(cfg: LzConfig, x: Seq<u8>, blob: Seq<u8>) -> bool {
    hc_encoded(lz_tokens(cfg, x), blob)
}

/// Decompressing the compressed form of any input gives the input back.
pub proof fn lemma_round_trip(cfg: LzConfig, x: Seq<u8>, blob: Seq<u8>)
    requires
        cfg.wf(),
        lz_tokens(cfg, x).len() <= u32::MAX,
        is_compression_of(cfg, x, blob),
    ensures
        decompress_spec(cfg, blob) == Some(x),
{
    lemma_lz_round_trip(cfg, x);
    lemma_hc_round_trip(lz_tokens(cfg, x), blob);
}

/// Compresses `bytes`. It fails only when the token stream is too long for
/// the 32-bit counts of the header.
pub fn compress(cfg: &LzConfig, bytes: &Vec<u8>) -> (r: Result<Vec<u8>, CodecError>)
    requires
        cfg.wf(),
    ensures
        r is Ok <==> lz_tokens(*cfg, bytes@).len() <= u32::MAX,
        r matches Ok(c) ==> is_compression_of(*cfg, bytes@, c@),
        r matches Ok(c) ==> decompress_spec(*cfg, c@) == Some(bytes@),
        r matches Err(e) ==> e == CodecError::InputTooLarge,
{
    let tokens = lz_encode(cfg, bytes);
    let r = hc_encode(&tokens);
    proof {
        if r is Ok {
            lemma_round_trip(*cfg, bytes@, r->Ok_0@);
        }
    }
    r
}

/// Decompresses `blob`; malformed input is refused.
pub fn decompress(cfg: &LzConfig, blob: &Vec<u8>) -> (r: Result<Vec<u8>, CodecError>)
    requires
        cfg.wf(),
        blob@.len() * 8 <= usize::MAX,
    ensures
        match decompress_spec(*cfg, blob@) {
            Some(o) => r matches Ok(v) && v@ == o,
            None => r == Err::<Vec<u8>, CodecError>(CodecError::Corrupt),
        },
{
    match hc_decode(blob) {
        Ok(tokens) => lz_decode(cfg, &tokens),
        Err(e) => Err(e),
    }
}

/// The first position at which `a` and `b` differ, counting a position
/// that only one of them has; `None` when they are equal.
pub fn first_mismatch(a: &Vec<u8>, b: &Vec<u8>) -> (r: Option<usize>)
    ensures
        r is None <==> a@ == b@,
        r matches Some(i) ==> {
            &&& forall|j: int| 0 <= j < i ==> a@[j] == b@[j]
            &&& (i < a@.len() && i < b@.len() && a@[i as int] != b@[i as int]) || (i == a@.len()
                && i < b@.len()) || (i == b@.len() && i < a@.len())
        },
{
    let mut i: usize = 0;
    while i < a.len() && i < b.len()
        invariant
            i <= a@.len(),
            i <= b@.len(),
            forall|j: int| 0 <= j < i ==> a@[j] == b@[j],
        decreases a@.len() - i,
    {
        if a[i] != b[i] {
            return Some(i);
        }
        i = i + 1;
    }
    if a.len() == b.len() {
        assert(a@ =~= b@);
        None
    } else {
        Some(i)
    }
}

} // verus!
