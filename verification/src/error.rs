//! The errors that reading and writing a region can give.

use vstd::prelude::*;

verus! {

/// `std::io::Error`, carried through unopened.
#[verifier::external_type_specification]
#[verifier::external_body]
pub struct ExIoError(std::io::Error);

/// Why a region could not be read or written.
#[derive(Debug)]
#[allow(inconsistent_fields)]
pub enum RegionError {
    /// The leading or trailing signature of a stream file is not the expected one.
    InvalidSignature { expected: u64, found: u64 },
    /// The version byte of a stream file is neither 1 nor 2.
    UnsupportedVersion { version: u8 },
    /// The chunk count of a stream header disagrees with the chunk table.
    InvalidChunkCount { expected: u16, found: u16 },
    /// No decompression strategy could unpack the stream payload.
    DecompressionFailed { reason: String },
    /// The compressor refused the data.
    CompressionFailed { reason: String },
    /// An I/O failure reported by a codec or by the caller.
    Io(std::io::Error),
    /// Any structural violation of a file or a file name.
    InvalidFormat,
}

/// What a [`RegionError`] says, without the I/O error that it may carry.
#[allow(inconsistent_fields)]
pub enum Failure {
    InvalidSignature { expected: u64, found: u64 },
    UnsupportedVersion { version: u8 },
    InvalidChunkCount { expected: u16, found: u16 },
    DecompressionFailed { reason: Seq<char> },
    CompressionFailed { reason: Seq<char> },
    Io,
    InvalidFormat,
}

impl RegionError {
    /// The kind of this error, and the numbers or the text that it reports.
    pub open spec fn failure(&self) -> Failure {
        match *self {
            RegionError::InvalidSignature { expected, found } => Failure::InvalidSignature {
                expected,
                found,
            },
            RegionError::UnsupportedVersion { version } => Failure::UnsupportedVersion { version },
            RegionError::InvalidChunkCount { expected, found } => Failure::InvalidChunkCount {
                expected,
                found,
            },
            RegionError::DecompressionFailed { reason } => Failure::DecompressionFailed {
                reason: reason@,
            },
            RegionError::CompressionFailed { reason } => Failure::CompressionFailed {
                reason: reason@,
            },
            RegionError::Io(_) => Failure::Io,
            RegionError::InvalidFormat => Failure::InvalidFormat,
        }
    }
}

} // verus!
