//! Schema-driven binary serialization: a type model, a schema model, a
//! back-to-front writer and a zero-copy reader, with their laws proved.

pub mod error;
pub mod types;
pub mod wire;
pub mod writer;
pub mod encoder;
pub mod decoder;
pub mod schema;
pub mod value;
pub mod binary;
