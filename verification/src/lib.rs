//! Verified core of a CAN-bus visualisation tool: a DBC definition model
//! with a textual parser and serializer, a bit-level signal codec for CAN
//! frame payloads, and a signal decoder/encoder that applies linear
//! physical-unit scaling with exact decimal arithmetic.

pub mod bits;
pub mod dbc;
pub mod decode;
pub mod frame;
pub mod hardware;
pub mod input;
pub mod num;
pub mod panels;
pub mod text;
pub mod timeline;
pub mod viz;
