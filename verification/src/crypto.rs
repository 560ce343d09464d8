//! Cryptographic building blocks: trusted cipher bindings, the verified
//! XTS header transform, and the key-file loader.
pub mod primitives;
pub mod keys;
pub mod xts;
