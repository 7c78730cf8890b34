//! Signature-based malicious-file detection: a store of known-bad content
//! digests with an atomic replace protocol, and a scan session that checks
//! file digests against it.

pub mod digest;
pub mod scanner;
pub mod store;
