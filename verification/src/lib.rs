//! A lossless pixel-buffer codec.
//!
//! The codec turns a raw grid of 3- or 4-channel color samples into a compact
//! opcode byte stream and back, bit-exactly. Encoder and decoder share a
//! two-level color cache that both sides mutate under identical rules, so the
//! cache never travels with the stream.

pub mod consts;
pub mod decode;
pub mod encode;
pub mod model;
pub mod error;
pub mod header;
pub mod laws;
pub mod state;
pub mod pixel;

pub use decode::{decode_header, decode_to_buf, decode_to_vec, Bytes, Decoder};
pub use encode::{encode_max_len, encode_to_buf, encode_to_vec, Encoder};
pub use error::Error;
pub use header::Header;
pub use pixel::Pixel;
pub use state::State;
