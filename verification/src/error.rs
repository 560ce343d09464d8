//! The error type shared by every parser, codec and operation of the library.
use vstd::prelude::*;
use vstd::string::StringExecFns;

use crate::util::dec_string_of;
use crate::util::u64_to_dec_string;

verus! {

/// Failure reported by the container parsers, the NCZ codecs and the
/// operation drivers. Every verified function is total: malformed input
/// is reported through this type, never by panicking.
#[derive(Debug, Clone)]
pub enum NszError {
    /// A failure of the byte-shuffling machinery at the boundary
    /// (a Zstandard stream that could not be produced or consumed).
    Io { message: String },
    /// A key file lacks an entry that the key schedule needs.
    MissingRequiredKey { key: String },
    /// A container, NCA header, ticket or NCZ stream violates its format.
    ContainerFormat { message: String },
    /// The input asks for something the codec does not support.
    UnsupportedFeature { feature: String },
    /// A content hash does not match the prefix encoded in a file name.
    ParityMismatch {
        operation: String,
        expected_sha256: String,
        actual_sha256: String,
        first_diff_offset: u64,
    },
}

impl NszError {
    /// The rendering that `message` returns.
    pub open spec fn spec_message(&self) -> Seq<char> {
        match self {
            NszError::Io { message } => "io error: "@ + message@,
            NszError::MissingRequiredKey { key } => "missing required key: "@ + key@,
            NszError::ContainerFormat { message } => "container format error: "@ + message@,
            NszError::UnsupportedFeature { feature } => "unsupported feature: "@ + feature@,
            NszError::ParityMismatch {
                operation,
                expected_sha256,
                actual_sha256,
                first_diff_offset,
            } => "parity mismatch in "@ + operation@ + ": expected sha256 "@ + expected_sha256@
                + ", actual sha256 "@ + actual_sha256@ + ", first diff offset "@ + dec_string_of(
                *first_diff_offset as int,
            ),
        }
    }

    /// Renders the error as one human-readable line.
    pub fn message(&self) -> (r: String)
        ensures
            r@ == self.spec_message(),
    {
        match self {
            NszError::Io { message } => {
                let mut s = String::from_str("io error: ");
                s.append(message.as_str());
                s
            },
            NszError::MissingRequiredKey { key } => {
                let mut s = String::from_str("missing required key: ");
                s.append(key.as_str());
                s
            },
            NszError::ContainerFormat { message } => {
                let mut s = String::from_str("container format error: ");
                s.append(message.as_str());
                s
            },
            NszError::UnsupportedFeature { feature } => {
                let mut s = String::from_str("unsupported feature: ");
                s.append(feature.as_str());
                s
            },
            NszError::ParityMismatch {
                operation,
                expected_sha256,
                actual_sha256,
                first_diff_offset,
            } => {
                let mut s = String::from_str("parity mismatch in ");
                s.append(operation.as_str());
                s.append(": expected sha256 ");
                s.append(expected_sha256.as_str());
                s.append(", actual sha256 ");
                s.append(actual_sha256.as_str());
                s.append(", first diff offset ");
                let offset_str = u64_to_dec_string(*first_diff_offset);
                s.append(offset_str.as_str());
                s
            },
        }
    }
}

/// Builds the `ContainerFormat` error carrying `message`.
pub fn container_format_error(message: &str) -> (r: NszError)
    ensures
        r matches NszError::ContainerFormat { message: m } && m@ == message@,
{
    NszError::ContainerFormat { message: String::from_str(message) }
}

} // verus!
