//! Verified core of a privileged desktop-application backend.
//!
//! Two subsystems carry the real invariants and are verified here:
//!
//! - the sandboxed path resolver: purely lexical path normalization and a
//!   component-wise confinement check against a configured root directory;
//! - the kernel query bridge: the fixed-layout wire protocol spoken over a
//!   device-control call — request construction with a deterministic
//!   authenticity tag, the ioctl code derivation, and the decoders for the
//!   two structured response kinds.
//!
//! The offline-flag bootstrap decision (which candidate config content turns
//! the process-wide flag on) is also verified here as a pure function.
//!
//! Everything around these — filesystem operations, SQLite persistence,
//! external-tool invocation, the actual device-control call — is I/O glue
//! that consumes this core's outputs and lives outside the verified library.

pub mod offline;
pub mod paths;
pub mod records;
pub mod signing;
pub mod wire;
