//! A synchronous, in-memory mirror of a remote table catalog.
//!
//! Names are dotted paths (`name`), the mirror keeps one entry per rendered
//! name (`mirror`), and every local mutation queues the remote call that must
//! follow it, for a worker outside the library to carry out.
pub mod error;
pub mod laws;
pub mod mirror;
pub mod name;
