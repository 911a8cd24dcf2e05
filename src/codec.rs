//! The calls into zstd and sha2 that the archive relies on.
use sha2::Digest;
use std::io::Read;
use vstd::prelude::*;

verus! {

/// The SHA-256 digest of a byte string.
pub uninterp spec fn sha256_of(data: Seq<u8>) -> Seq<u8>;

/// What zstd's bulk compressor makes of `data` at `level` with dictionary
/// `dict`: a frame, or `None` where it reports an error.
pub uninterp spec fn zstd_compressed(level: int, dict: Seq<u8>, data: Seq<u8>) -> Option<Seq<u8>>;

/// What zstd's streaming decoder makes of `frame` with dictionary `dict`:
/// the decoded bytes, or `None` where it reports an error.
pub uninterp spec fn zstd_decompressed(frame: Seq<u8>, dict: Seq<u8>) -> Option<Seq<u8>>;

/// The dictionary that zstd trains from `samples` for a target size, or
/// `None` where training fails.
pub uninterp spec fn zstd_trained(samples: Seq<Seq<u8>>, max_size: int) -> Option<Seq<u8>>;

/// Relies on `sha2::Sha256::digest`: a 32-byte digest of the input.
#[verifier::external_body]
pub(crate) fn sha256(data: &[u8]) -> (r: Vec<u8>)
    ensures
        r@ == sha256_of(data@),
        r@.len() == 32,
{
    sha2::Sha256::digest(data).to_vec()
}

/// Relies on `zstd::bulk::Compressor::with_dictionary` and its `compress`:
/// a frame that decodes, with the same dictionary, to the input.
#[verifier::external_body]
pub(crate) fn compress(level: i32, dict: &[u8], data: &[u8]) -> (r: Option<Vec<u8>>)
    ensures
        match r {
            Some(c) => zstd_compressed(level as int, dict@, data@) == Some(c@)
                && zstd_decompressed(c@, dict@) == Some(data@),
            None => zstd_compressed(level as int, dict@, data@) is None,
        },
{
    let mut c = zstd::bulk::Compressor::with_dictionary(level, dict).ok()?;
    c.compress(data).ok()
}

/// Relies on `zstd::stream::read::Decoder::with_dictionary`, read to the end.
#[verifier::external_body]
pub(crate) fn decompress(frame: &[u8], dict: &[u8]) -> (r: Option<Vec<u8>>)
    ensures
        match r {
            Some(v) => zstd_decompressed(frame@, dict@) == Some(v@),
            None => zstd_decompressed(frame@, dict@) is None,
        },
{
    let mut dec = zstd::stream::read::Decoder::with_dictionary(frame, dict).ok()?;
    let mut res = Vec::new();
    dec.read_to_end(&mut res).ok()?;
    Some(res)
}

/// Relies on `zstd::dict::from_samples`: a dictionary trained on the samples.
#[verifier::external_body]
pub(crate) fn train(samples: &Vec<Vec<u8>>, max_size: usize) -> (r: Option<Vec<u8>>)
    ensures
        match r {
            Some(d) => zstd_trained(samples.deep_view(), max_size as int) == Some(d@),
            None => zstd_trained(samples.deep_view(), max_size as int) is None,
        },
{
    zstd::dict::from_samples(samples, max_size).ok()
}

} // verus!
