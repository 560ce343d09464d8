//! The operation drivers: the container-to-container transforms behind
//! compress, decompress and verify, and the reports the operations
//! return.
pub mod compress;
pub mod decompress;
pub mod verify;

use vstd::prelude::*;

verus! {

/// Common report returned by non-verify operations.
#[derive(Debug, Clone, Default)]
pub struct OperationReport {
    /// Files successfully processed by the operation.
    pub processed_files: Vec<String>,
    /// Files intentionally skipped by the operation.
    pub skipped_files: Vec<String>,
}

/// Report returned by verify operations.
#[derive(Debug, Clone, Default)]
pub struct VerifyReport {
    /// Files successfully verified by the operation.
    pub verified_files: Vec<String>,
}

} // verus!
