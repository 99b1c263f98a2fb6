pub mod archive;
pub mod bytes;
pub mod csv;
pub mod number;
pub mod text;
pub mod trusted;
pub mod varint;
pub mod model;
pub mod reader;
pub mod engine;
pub mod format;
pub mod json;
pub mod laws;
mod roundtrip;
mod search;
pub mod jsonl;
pub mod field_laws;
