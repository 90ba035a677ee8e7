//! The decompression collaborator: gzip inflation through `libflate`, behind
//! one trusted wrapper, and the entry points that accept compressed input.

use vstd::prelude::*;
use crate::decode::{decode_uncompressed, sd_root};
use crate::tag::{NamedTag, NamedV, NbtError};

verus! {

/// What gzip decompression of a byte sequence yields: the decompressed bytes,
/// or nothing when the framing is malformed. The outcome of inflating an
/// in-memory buffer is a function of its bytes alone, and this name stands
/// for it.
pub uninterp spec fn gunzip(compressed: Seq<u8>) -> Option<Seq<u8>>;

/// Relies on `libflate::gzip::Decoder`: `new` parses the gzip header and the
/// `std::io::Read` impl inflates the member, failing on malformed framing.
/// Reading a `&[u8]` buffer to the end either yields the decompressed bytes
/// or fails, which `gunzip` names.
#[verifier::external_body]
fn gzip_inflate(bytes: &Vec<u8>) -> (r: Option<Vec<u8>>)
    ensures
        match r {
            Some(raw) => gunzip(bytes@) == Some(raw@),
            None => gunzip(bytes@) == None::<Seq<u8>>,
        },
{
    let mut decoder = match libflate::gzip::Decoder::new(&bytes[..]) {
        Ok(d) => d,
        Err(_) => return None,
    };
    let mut out = Vec::new();
    match std::io::Read::read_to_end(&mut decoder, &mut out) {
        Ok(_) => Some(out),
        Err(_) => None,
    }
}

/// Decodes a gzip-compressed buffer: inflate, then decode the root named tag
/// of the decompressed bytes.
pub open spec fn sd_decode(s: Seq<u8>) -> Result<NamedV, NbtError> {
    match gunzip(s) {
        Some(raw) => sd_root(raw),
        None => Err(NbtError::DecompressionFailed),
    }
}

/// Decodes a byte buffer whose contents are gzip-compressed NBT data, as
/// `sd_decode`: the buffer is decompressed, then one top-level named tag is
/// decoded from the result. A malformed gzip framing fails with
/// `DecompressionFailed`; every other error comes from the tag decode of the
/// decompressed bytes, unchanged.
pub fn decode(bytes: &Vec<u8>) -> (r: Result<NamedTag, NbtError>)
    ensures
        match (r, sd_decode(bytes@)) {
            (Ok(nt), Ok(nv)) => nt@ == nv,
            (Err(e), Err(se)) => e == se,
            _ => false,
        },
{
    match gzip_inflate(bytes) {
        Some(raw) => decode_uncompressed(&raw),
        None => Err(NbtError::DecompressionFailed),
    }
}

/// Decoding a gzip-compressed buffer agrees with decoding its decompressed
/// bytes directly: whenever inflation yields `raw`, `decode` on the
/// compressed buffer and `decode_uncompressed` on `raw` produce the same
/// tree, or the same error.
pub proof fn lemma_decode_agrees_with_uncompressed(compressed: Seq<u8>, raw: Seq<u8>)
    requires
        gunzip(compressed) == Some(raw),
    ensures
        sd_decode(compressed) == sd_root(raw),
{
}

} // verus!
