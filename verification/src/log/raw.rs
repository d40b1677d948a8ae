//! The Snappy codec, as this library sees it.

use vstd::prelude::*;

verus! {

/// What `snap::Decoder::decompress_vec` gives for `input`: the decoded bytes,
/// or nothing where it fails.
pub uninterp spec fn snappy_decompressed(input: Seq<u8>) -> Option<Seq<u8>>;

/// What `snap::Encoder::compress_vec` gives for `input`: the encoded bytes, or
/// nothing where it fails.
pub uninterp spec fn snappy_compressed(input: Seq<u8>) -> Option<Seq<u8>>;

/// The largest input, in bytes, that the encoder is known to accept: with its
/// worst-case growth of 32 bytes and a sixth it still fits 32 bits.
pub const MAX_COMPRESS_INPUT: u32 = 3_681_400_500;

/// Calls `snap::Decoder::decompress_vec` on a fresh decoder and drops the
/// detail of a failure. The decoder has no state, so the outcome depends on
/// `input` alone.
#[verifier::external_body]
pub(crate) fn decompress_vec(input: &[u8]) -> (r: Option<Vec<u8>>)
    ensures
        match r {
            Some(v) => snappy_decompressed(input@) == Some(v@),
            None => snappy_decompressed(input@).is_none(),
        },
{
    snap::Decoder::new().decompress_vec(input).ok()
}

/// Calls `snap::Encoder::compress_vec` on a fresh encoder and drops the
/// detail of a failure, so the outcome depends on `input` alone. It fails
/// only where 32 bytes and seven sixths of the input's length pass 32 bits,
/// and what it gives decodes to `input` again: that is the codec's purpose,
/// and is taken on trust here.
#[verifier::external_body]
pub(crate) fn compress_vec(input: &[u8]) -> (r: Option<Vec<u8>>)
    ensures
        match r {
            Some(v) => snappy_compressed(input@) == Some(v@) && snappy_decompressed(v@) == Some(
                input@,
            ),
            None => snappy_compressed(input@).is_none(),
        },
        input@.len() <= MAX_COMPRESS_INPUT ==> r is Some,
{
    snap::Encoder::new().compress_vec(input).ok()
}

} // verus!
