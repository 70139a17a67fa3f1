//! Strict encoding: bounded containers with size invariants enforced at
//! construction, mutation and decode time, and a schema-driven verifier
//! that checks whether a byte stream is a structurally valid encoding of
//! a declared type without materializing the decoded value.

pub mod codec;
pub mod collection;
pub mod path;
pub mod schema;
pub mod verify;
