//! Verified codec core for Nintendo Switch distribution containers:
//! PFS0/NSP and HFS0/XCI parsing and re-encoding, NCA header cryptography,
//! and the NCZ sectioned/blocked Zstandard compression format.
pub mod config;
pub mod container;
pub mod crypto;
pub mod error;
pub mod fs_ops;
pub mod ncz;
pub mod ops;
pub mod util;

pub use config::CompressRequest;
pub use config::CreateRequest;
pub use config::DecompressRequest;
pub use config::ExtractRequest;
pub use config::TitleKeysRequest;
pub use config::UndupeRequest;
pub use config::VerifyRequest;
pub use error::NszError;
pub use ops::OperationReport;
pub use ops::VerifyReport;
