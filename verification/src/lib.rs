//! A directory-synchronization client library.
//!
//! The library mirrors a local directory tree against a remote file-store
//! service. It holds the reconciliation logic: building comparable file
//! records, diffing a fresh filesystem snapshot against the last persisted
//! state, interpreting the remote service's replies, and keeping the durable
//! local state consistent while changes are pushed and pulled. All
//! input/output (disk walks, HTTP calls) lives outside the library; callers
//! hand in plain values and receive plain values back.

pub mod codec;
pub mod model;
pub mod service;
pub mod state_manager;
pub mod util;
