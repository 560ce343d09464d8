//! Container formats: the PFS0 (`.nsp`) and HFS0 (`.xci` partition)
//! archives, the raw PFS0 header record, the gamecard image, and the NCA
//! header analyzer.
pub mod hfs0;
pub mod nca;
pub mod nsp;
pub mod payload;
pub mod pfs0;
pub mod xci;
