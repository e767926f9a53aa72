//! A sandboxed computation microkernel core: capability-based access control,
//! a hash-chained audit log, an Erlang-style supervisor, and a module-loading
//! pipeline with checksum and Ed25519 signature verification.

pub mod accrual;
pub mod audit;
pub mod caps;
pub mod descriptor;
pub mod encoding;
pub mod runtime;
pub mod sig;
pub mod supervisor;
