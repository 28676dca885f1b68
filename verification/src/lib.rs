//! Run a snippet of OSA JavaScript in an external interpreter, passing it
//! typed parameters and decoding its typed result.
//!
//! The crate implements the calling convention layered on top of a generic
//! "run a process, capture stdout/stderr/exit status" boundary:
//!
//! - [`json::Json`] models the structured values that cross the boundary,
//!   and `json` holds a verified encoder and parser for the wire format;
//! - [`script::JavaScript`] wraps a caller-supplied code body with a
//!   parameter-binding preamble and a result-serialization postamble;
//! - [`script::decode`] turns the raw outcome of the interpreter process
//!   (exit flag, stdout bytes, stderr bytes) into a decoded value or a
//!   structured [`error::Error`].
//!
//! Spawning the interpreter process itself is I/O and lives outside this
//! library; callers hand the captured output back as a
//! [`script::ExecutionOutcome`].

pub mod error;
pub mod json;
pub mod laws;
pub mod parse;
pub mod script;

pub use error::Error;
pub use json::Json;
pub use script::{decode, ExecutionOutcome, JavaScript};
