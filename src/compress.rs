//! Byte compression of checkpoint payloads, through `flate2` (zlib) and
//! `zstd`. Each direction is a function of its input alone; the names below
//! stand for what those libraries compute.
use vstd::prelude::*;

verus! {

/// The zlib stream that `flate2` writes for `p` at its default level, if it writes one.
pub uninterp spec fn zlib_packed(p: Seq<u8>) -> Option<Seq<u8>>;

/// The bytes that `flate2` inflates from the zlib stream `c`, if `c` is one.
pub uninterp spec fn zlib_unpacked(c: Seq<u8>) -> Option<Seq<u8>>;

/// The zstd frame that `zstd` writes for `p` at level 16, if it writes one.
pub uninterp spec fn zstd_packed(p: Seq<u8>) -> Option<Seq<u8>>;

/// The bytes that `zstd` decodes from the frames in `c`, if `c` holds them.
pub uninterp spec fn zstd_unpacked(c: Seq<u8>) -> Option<Seq<u8>>;

pub open spec fn view_opt(r: Option<Vec<u8>>) -> Option<Seq<u8>> {
    match r {
        Some(v) => Some(v@),
        None => None,
    }
}

/// Relies on `flate2::write::ZlibEncoder` at `Compression::default()`: the
/// stream depends on the input alone, and zlib is lossless, so inflating it
/// gives the input back.
#[verifier::external_body]
pub(crate) fn zlib_compress(p: &[u8]) -> (r: Option<Vec<u8>>)
    ensures
        view_opt(r) == zlib_packed(p@),
        r matches Some(c) ==> zlib_unpacked(c@) == Some(p@),
{
    let mut e = flate2::write::ZlibEncoder::new(Vec::new(), flate2::Compression::default());
    match std::io::Write::write_all(&mut e, p) {
        Ok(()) => e.finish().ok(),
        Err(_) => None,
    }
}

/// Relies on `flate2::read::ZlibDecoder`: it inflates one zlib stream and
/// fails on input that is not one.
#[verifier::external_body]
pub(crate) fn zlib_decompress(c: &[u8]) -> (r: Option<Vec<u8>>)
    ensures
        view_opt(r) == zlib_unpacked(c@),
{
    let mut v = Vec::new();
    match std::io::Read::read_to_end(&mut flate2::read::ZlibDecoder::new(c), &mut v) {
        Ok(_) => Some(v),
        Err(_) => None,
    }
}

/// Relies on `zstd::stream::encode_all` at level 16: the frame depends on the
/// input alone, and zstd is lossless, so decoding it gives the input back.
#[verifier::external_body]
pub(crate) fn zstd_compress(p: &[u8]) -> (r: Option<Vec<u8>>)
    ensures
        view_opt(r) == zstd_packed(p@),
        r matches Some(c) ==> zstd_unpacked(c@) == Some(p@),
{
    zstd::stream::encode_all(p, 16).ok()
}

/// Relies on `zstd::stream::decode_all`: it decodes the frames of `c` and
/// fails on input that does not hold them.
#[verifier::external_body]
pub(crate) fn zstd_decompress(c: &[u8]) -> (r: Option<Vec<u8>>)
    ensures
        view_opt(r) == zstd_unpacked(c@),
{
    zstd::stream::decode_all(c).ok()
}

} // verus!
