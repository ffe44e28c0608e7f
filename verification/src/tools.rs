//! The tools the model works with, and the rules they share.
//!
//! The file system is the interface, so the tool set is small on purpose: `read`, `write`, `edit`
//! and `bash`; no search tool (that is `bash`), no listing tool (that is `bash`).

pub mod bash;
pub mod edit;
pub mod queue;
pub mod read;
pub mod schema;
pub mod set;
pub mod truncate;
pub mod write;
