//! The gzip stream. Compressing and expanding is the `flate2` crate's
//! work; this module states what the library relies on and proves nothing
//! of it.

use vstd::prelude::*;

verus! {

/// The gzip stream that `flate2::read::GzEncoder` makes of `data` at the
/// default level; `None` where it fails.
pub uninterp spec fn gzip_stream(data: Seq<u8>) -> Option<Seq<u8>>;

/// The data that `flate2::read::GzDecoder` reads out of `stream`; `None`
/// where it fails.
pub uninterp spec fn gunzip_stream(stream: Seq<u8>) -> Option<Seq<u8>>;

/// Reads a `flate2::read::GzEncoder` over `data`, at the default level, to
/// its end. Claimed of it: the stream is a function of `data`, the header
/// carrying no time, no file name and a fixed system byte; and
/// `flate2::read::GzDecoder` reads `data` back out of the stream. That it
/// succeeds is not claimed: the compressor has ways to fail that its
/// source does not rule out.
#[verifier::external_body]
pub(crate) fn gzip(data: &[u8]) -> (r: Result<Vec<u8>, std::io::Error>)
    ensures
        r matches Ok(stream) ==> gzip_stream(data@) == Some(stream@),
        r is Err ==> gzip_stream(data@) is None,
        r matches Ok(stream) ==> gunzip_stream(stream@) == Some(data@),
{
    let mut stream = Vec::new();
    let mut encoder = flate2::read::GzEncoder::new(data, flate2::Compression::default());
    std::io::Read::read_to_end(&mut encoder, &mut stream)?;
    Ok(stream)
}

/// Reads a `flate2::read::GzDecoder` over `stream` to its end. Claimed of
/// it: what is read, or that reading fails, is a function of `stream`.
#[verifier::external_body]
pub(crate) fn gunzip(stream: &[u8]) -> (r: Result<Vec<u8>, std::io::Error>)
    ensures
        r matches Ok(data) ==> gunzip_stream(stream@) == Some(data@),
        r is Err ==> gunzip_stream(stream@) is None,
{
    let mut data = Vec::new();
    let mut decoder = flate2::read::GzDecoder::new(stream);
    std::io::Read::read_to_end(&mut decoder, &mut data)?;
    Ok(data)
}

} // verus!
