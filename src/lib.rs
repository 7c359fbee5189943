//! Streaming client core for OData v4 services: an incremental JSON tokenizer,
//! a path-aware event producer and converters to CSV, JSON and XML.
pub mod model;
pub mod decode;
pub mod stream;
pub mod entity_stream;
pub mod provider;
pub mod url;
pub mod convert;
pub mod roundtrip;

pub use model::{ValuePath, ValuePosition, Value, Token};
