//! Gzip, as `flate2` writes and reads it.

use std::io::Write;
use vstd::prelude::*;

verus! {

/// What gzip data unpacks to; nothing where it is damaged.
pub uninterp spec fn unpacked(packed: Seq<u8>) -> Option<Seq<u8>>;

/// The gzip data that bytes are packed to; nothing where the compressor fails.
pub uninterp spec fn packed_form(raw: Seq<u8>) -> Option<Seq<u8>>;

/// `flate2::write::GzEncoder` at the fast level, into memory: the packed data is named, and
/// what is claimed of it is that it unpacks to what went in. It is written with a constant
/// header into a vector, so it rests on the bytes alone. Whether the compressor can fail
/// is left to the name, for its documentation only says that it may not be possible.
#[verifier::external_body]
pub(crate) fn gzip(raw: &[u8]) -> (out: Option<Vec<u8>>)
    ensures
        (out is Some) == (packed_form(raw@) is Some),
        out matches Some(packed) ==> packed_form(raw@) == Some(packed@),
        out matches Some(packed) ==> unpacked(packed@) == Some(raw@),
{
    let mut encoder = flate2::write::GzEncoder::new(Vec::new(), flate2::Compression::fast());
    encoder.write_all(raw).ok()?;
    encoder.finish().ok()
}

/// `flate2::read::GzDecoder`, read to its end.
#[verifier::external_body]
pub(crate) fn gunzip(packed: &[u8]) -> (out: Option<Vec<u8>>)
    ensures
        (out is Some) == (unpacked(packed@) is Some),
        out matches Some(raw) ==> unpacked(packed@) == Some(raw@),
{
    let mut raw = Vec::new();
    std::io::Read::read_to_end(&mut flate2::read::GzDecoder::new(packed), &mut raw).ok()?;
    Some(raw)
}

} // verus!
