//! zstd compression of triple blocks.
use vstd::prelude::*;

verus! {

/// What `zstd::encode_all` at level 0 produces for `data` (a deterministic
/// function of the input for a given library version).
pub uninterp spec fn zstd_compressed(data: Seq<u8>) -> Seq<u8>;

/// What `zstd::decode_all` produces for `frame`, or `None` when it reports an
/// error.
pub uninterp spec fn zstd_decompressed(frame: Seq<u8>) -> Option<Seq<u8>>;

/// `zstd::encode_all(data, 0)`: the compressed frame. Encoding an
/// in-memory slice into a `Vec` reports no error (the encoder fails only when
/// memory runs out, which aborts); the `Option` carries the outside error
/// type away. The frame decompresses to `data` (the round trip the zstd
/// crate's own full-cycle tests check for `encode_all` and `decode_all`).
#[verifier::external_body]
pub(crate) fn zstd_encode(data: &[u8]) -> (r: Option<Vec<u8>>)
    ensures
        r is Some,
        r matches Some(v) ==> v@ == zstd_compressed(data@) && zstd_decompressed(v@) == Some(data@),
{
    zstd::encode_all(data, 0).ok()
}

/// `zstd::decode_all(frame)`: the decompressed bytes, `None` on error.
#[verifier::external_body]
pub(crate) fn zstd_decode(frame: &[u8]) -> (r: Option<Vec<u8>>)
    ensures
        r matches Some(v) ==> zstd_decompressed(frame@) == Some(v@),
        r is None ==> zstd_decompressed(frame@) is None,
{
    zstd::decode_all(frame).ok()
}

} // verus!
