//! Runtime core of a Protocol Buffers wire-format library: varints, zigzag,
//! keys and unknown-field skipping, the message capability with its scalar
//! wrapper bindings, a UTF-8 checked byte buffer and the conformance driver's
//! decisions.
pub mod varint;
pub mod wire;
pub mod message;
pub mod external;
pub mod byte_str;
pub mod conformance;
