//! Gzip compression of response bodies, done by the `flate2` crate.

use flate2::write::GzEncoder;
use flate2::Compression;
use std::io::Write;
use vstd::prelude::*;

verus! {

#[verifier::external_type_specification]
#[verifier::external_body]
pub struct ExIoError(std::io::Error);

/// What `flate2` makes of `data` at its default compression level: the gzip stream, or
/// `None` where the encoder reports an error.
pub uninterp spec fn gzip_encoded(data: Seq<u8>) -> Option<Seq<u8>>;

/// Compresses `data` into a gzip stream.
///
/// Trusted: the body writes `data` to a `flate2::write::GzEncoder` over an empty
/// vector, made by `GzEncoder::new` with `Compression::default()`, and returns what
/// `GzEncoder::finish` hands back. The contract claims that the outcome depends on
/// nothing but `data`: the encoder writes a header without time stamp, file name or
/// operating system, compresses at a constant level, and writes into memory, so the
/// same bytes give the same stream, or the same failure, every time. It does not
/// claim that the call succeeds.
#[verifier::external_body]
pub(crate) fn gzip(data: &[u8]) -> (res: Result<Vec<u8>, std::io::Error>)
    ensures
        match res {
            Ok(stream) => gzip_encoded(data@) == Some(stream@),
            Err(_) => gzip_encoded(data@) is None,
        },
{
    let mut encoder = GzEncoder::new(Vec::new(), Compression::default());
    encoder.write_all(data)?;
    encoder.finish()
}

} // verus!
