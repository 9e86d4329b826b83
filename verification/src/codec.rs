//! Compression of the contents of rotated files.
use std::io::Write;

use crate::error::{ErrorView, LogRollerError};
use crate::rotation::Compression;
use vstd::prelude::*;

verus! {

/// What flate2's gzip encoder at its default level makes of the bytes.
pub uninterp spec fn gzip_of(data: Seq<u8>) -> Seq<u8>;

/// What xz2's encoder at the level makes of the bytes.
pub uninterp spec fn xz_of(level: int, data: Seq<u8>) -> Seq<u8>;

/// What flate2's gzip decoder reads out of the stream, or `None` where it refuses
/// it.
pub uninterp spec fn gunzip_of(stream: Seq<u8>) -> Option<Seq<u8>>;

/// What xz2's decoder reads out of the stream, or `None` where it refuses it.
pub uninterp spec fn unxz_of(stream: Seq<u8>) -> Option<Seq<u8>>;

/// What the compression makes of the bytes.
pub open spec fn packed(compression: Compression, data: Seq<u8>) -> Seq<u8> {
    match compression {
        Compression::Gzip => gzip_of(data),
        Compression::XZ(level) => xz_of(level as int, data),
    }
}

/// What decompression reads out of the stream.
pub open spec fn unpacked(compression: Compression, stream: Seq<u8>) -> Option<Seq<u8>> {
    match compression {
        Compression::Gzip => gunzip_of(stream),
        Compression::XZ(_) => unxz_of(stream),
    }
}

/// The bytes as a gzip stream, or the message of the encoder's error.
///
/// Calls `flate2::write::GzEncoder::new` with `flate2::Compression::default()`,
/// `write_all` and `finish`. Trusted is that the encoder does not fail, since its
/// stream is used as it should be and a vector takes all that is written to it;
/// that the stream depends on the bytes alone, since its header holds no time and
/// no name; and that flate2's decoder reads the bytes out of it again.
#[verifier::external_body]
fn gzip(data: &[u8]) -> (r: Result<Vec<u8>, String>)
    ensures
        r is Ok,
        r->Ok_0@ == gzip_of(data@),
        gunzip_of(r->Ok_0@) == Some(data@),
{
    let mut encoder = flate2::write::GzEncoder::new(Vec::new(), flate2::Compression::default());
    match encoder.write_all(data) {
        Ok(()) => match encoder.finish() {
            Ok(stream) => Ok(stream),
            Err(error) => Err(error.to_string()),
        },
        Err(error) => Err(error.to_string()),
    }
}

/// The bytes as an xz stream, or the message of the encoder's error.
///
/// Calls `xz2::write::XzEncoder::new`, which panics on a level beyond 9,
/// `write_all` and `finish`. Trusted is that the encoder does not fail at a level
/// up to 9; that the stream depends on the level and the bytes alone, since liblzma
/// is built from the source that xz2 brings; and that xz2's decoder reads the bytes
/// out of it again. A want of memory is left aside, as it is everywhere else.
#[verifier::external_body]
fn xz(level: u32, data: &[u8]) -> (r: Result<Vec<u8>, String>)
    requires
        level <= 9,
    ensures
        r is Ok,
        r->Ok_0@ == xz_of(level as int, data@),
        unxz_of(r->Ok_0@) == Some(data@),
{
    let mut encoder = xz2::write::XzEncoder::new(Vec::new(), level);
    match encoder.write_all(data) {
        Ok(()) => match encoder.finish() {
            Ok(stream) => Ok(stream),
            Err(error) => Err(error.to_string()),
        },
        Err(error) => Err(error.to_string()),
    }
}

/// The contents of a compressed file, given what came out of the encoder: its
/// stream, or an input and output error with its message.
pub fn encoded(stream: Result<Vec<u8>, String>) -> (r: Result<Vec<u8>, LogRollerError>)
    ensures
        match stream {
            Ok(bytes) => r == Ok::<Vec<u8>, LogRollerError>(bytes),
            Err(error) => r matches Err(e) && e@ == ErrorView::FileIOError(error@),
        },
{
    match stream {
        Ok(bytes) => Ok(bytes),
        Err(error) => Err(LogRollerError::FileIOError(error)),
    }
}

/// The contents of the compressed file for a log file with the contents `data`,
/// out of which decompression reads `data` again.
pub fn compress_bytes(compression: &Compression, data: &[u8]) -> (r: Result<Vec<u8>, LogRollerError>)
    requires
        compression.level_valid(),
    ensures
        r matches Ok(bytes) && bytes@ == packed(*compression, data@) && unpacked(
            *compression,
            bytes@,
        ) == Some(data@),
        match *compression {
            Compression::Gzip => r->Ok_0@ == gzip_of(data@) && gunzip_of(r->Ok_0@) == Some(data@),
            Compression::XZ(level) => r->Ok_0@ == xz_of(level as int, data@) && unxz_of(
                r->Ok_0@,
            ) == Some(data@),
        },
{
    let stream = match compression {
        Compression::Gzip => gzip(data),
        Compression::XZ(level) => xz(*level, data),
    };
    encoded(stream)
}

/// A file is compressed by the algorithm that is configured, and with xz at the very
/// level that is configured. So what compression makes of a file at one level is what
/// it makes of it at another only where the encoder makes the same of it at both.
pub proof fn law_level_is_kept(level: u32, other: u32, data: Seq<u8>)
    ensures
        packed(Compression::Gzip, data) == gzip_of(data),
        packed(Compression::XZ(level), data) == xz_of(level as int, data),
        packed(Compression::XZ(level), data) == packed(Compression::XZ(other), data) <==> xz_of(
            level as int,
            data,
        ) == xz_of(other as int, data),
{
}

} // verus!
