//! A delimiter-framed binary codec for a schema-driven value model.
//!
//! `serializer` writes a `Value` as bytes, `deserializer` reads one back
//! against a `Shape`, both proved against the grammar in `grammar`; `laws`
//! states what holds between the two.
pub mod cursor;
pub mod deserializer;
pub mod error;
pub mod grammar;
pub mod laws;
pub mod serializer;
pub mod wire;

pub use cursor::CustomDeserializer;
pub use deserializer::{from_bytes, MinimalMapDeserializer, MinimalSequenceDeserializer};
pub use error::Error;
pub use serializer::to_bytes;
pub use wire::{IntKind, ListShape, Shape, Value};
