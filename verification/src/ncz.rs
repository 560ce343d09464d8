//! The NCZ compressed content format: section-table framing, solid and
//! block Zstandard streams, and AES-CTR re-encryption on decode.
pub mod compress;
pub mod decompress;
pub mod header;
