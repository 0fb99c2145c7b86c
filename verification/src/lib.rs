//! Core of a client for a TCP instrument-control protocol: length-framed
//! messages in JSON or MessagePack form, a challenge-response login, and
//! decoders for the fixed binary telemetry formats.
//!
//! The code that owns the stream lives outside: it dials the address the
//! session names, writes the frames built here, reads the number of bytes the
//! headers declare, and hands every byte back in. Everything that gives those
//! bytes meaning stands in this crate, under contract.
pub mod text;
pub mod value;
pub mod error;
pub mod telemetry;
pub mod json;
pub mod wire;
pub mod auth;
pub mod serial;
pub mod session;
pub mod shell;
