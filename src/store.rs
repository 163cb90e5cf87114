use std::io::Read;
use vstd::prelude::*;

verus! {

/// The gzip stream that flate2 writes for `data` at its fast level, or nothing where it
/// reports an error.
pub uninterp spec fn gzip_of(data: Seq<u8>) -> Option<Seq<u8>>;

/// What flate2 reads out of the gzip stream `blob`, or nothing where the stream is not one.
pub uninterp spec fn gunzip_of(blob: Seq<u8>) -> Option<Seq<u8>>;

/// What an optional byte vector holds.
pub open spec fn bytes_view(r: Option<Vec<u8>>) -> Option<Seq<u8>> {
    match r {
        Some(v) => Some(v@),
        None => None,
    }
}

/// Relies on flate2's `read::GzEncoder` at `Compression::fast()`: its default header holds
/// no time stamp, so the stream depends on the bytes alone.
#[verifier::external_body]
fn gzip(data: &[u8]) -> (r: Option<Vec<u8>>)
    ensures
        bytes_view(r) == gzip_of(data@),
{
    let mut buf = Vec::with_capacity(data.len());
    let mut encoder = flate2::read::GzEncoder::new(data, flate2::Compression::fast());
    match encoder.read_to_end(&mut buf) {
        Ok(_) => Some(buf),
        Err(_) => None,
    }
}

/// Relies on flate2's `read::GzDecoder`: what it reads depends on the stream alone.
#[verifier::external_body]
fn gunzip(blob: &[u8]) -> (r: Option<Vec<u8>>)
    ensures
        bytes_view(r) == gunzip_of(blob@),
{
    let mut buf = Vec::new();
    let mut decoder = flate2::read::GzDecoder::new(blob);
    match decoder.read_to_end(&mut buf) {
        Ok(_) => Some(buf),
        Err(_) => None,
    }
}

/// Compresses the serialized cache `data` for storage.
pub fn zip(data: &Vec<u8>) -> (r: Option<Vec<u8>>)
    ensures
        bytes_view(r) == gzip_of(data@),
{
    gzip(data.as_slice())
}

/// The serialized cache held in the stored `blob`; nothing where the blob is corrupt.
pub fn unzip(blob: &Vec<u8>) -> (r: Option<Vec<u8>>)
    ensures
        bytes_view(r) == gunzip_of(blob@),
{
    gunzip(blob.as_slice())
}

} // verus!
