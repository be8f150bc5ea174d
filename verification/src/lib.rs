//! Decoding of CAN frame payloads into named signal values.
//!
//! A communication matrix lists, per frame identifier, where each signal sits
//! in the payload. The library extracts the raw unsigned value of each signal
//! and renders it either as its declared label or as a decimal number.

pub mod schema;
pub mod error;
pub mod extract;
pub mod label;
pub mod decode;
pub mod bits;
