//! Decoder and encoder for an AMF0-style tag-length-value binary format.
//!
//! A value on the wire is a single marker byte followed by a payload whose
//! shape depends on the marker: fixed-width big-endian scalars,
//! length-prefixed UTF-8 text, sentinel-terminated property lists, or
//! count-prefixed element lists. The decoder turns a byte slice into a
//! [`value::Value`] tree; the encoder emits bytes that the decoder accepts
//! back to the same tree.

pub mod decode;
pub mod encode;
pub mod laws;
pub mod markers;
pub mod value;
pub mod wire;

pub use value::Value;
