//! Control-plane library for a simulated "private node" desktop backend.
//!
//! The library keeps two small records: the private-node state (an online
//! flag and a simulated peer count) and a security-state bundle of five
//! optional, caller-supplied strings. Commands mutate the records under
//! exact contracts; a JSON codec turns each record into the bytes that are
//! mirrored to disk and proves that decoding an encoded record gives the
//! record back. All file and process handling stays outside the library.

pub mod codec;
pub mod flush;
pub mod node;
pub mod security;
pub mod security_codec;
pub mod text;
