//! Suggestions for a redaction configuration. Given an event, the
//! configuration of a redaction engine and the path of one value in what the
//! engine makes of the event, the library finds the edits of the configuration
//! that change what becomes of that value: a rule to apply, a rule to take
//! away, or a rule to define for the key under which the value stands.
//!
//! The engine itself is not part of the library. It is handed in as a
//! function from a configuration to its answer, and nothing is assumed of it.

pub mod annotated;
pub mod document;
pub mod laws;
pub mod sequence;
pub mod suggestions;
pub mod text;
pub mod types;
