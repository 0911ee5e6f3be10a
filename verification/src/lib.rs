//! Verification of keyed-hash commitments to byte data: an HMAC-SHA256 engine,
//! a constant-time digest comparison, single-proof and batch verification, and
//! a balance variant that parses decimal strings and compares them exactly.

pub mod compare;
pub mod decimal;
pub mod hash;
pub mod verify;

pub use verify::ZkpBalanceVerifier;
