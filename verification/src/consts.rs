//! Wire-format constants: opcode tags, framing sizes and limits.

use vstd::prelude::*;

verus! {

/// Direct-index opcode tag: the low six bits name a primary cache slot.
pub const QOI_OP_INDEX: u8 = 0x00;

/// Small-delta opcode tag: two bits per channel, biased by 2.
pub const QOI_OP_DIFF: u8 = 0x40;

/// Repeat-once opcode: the zero-delta value of the small-delta range.
pub const QOI_OP_PREV: u8 = 0x6a;

/// Luma-delta opcode tag; the second byte disambiguates long-run and
/// long-index reuses of the same leading range.
pub const QOI_OP_LUMA: u8 = 0x80;

/// Run opcode tag: the low six bits carry the run length minus 2.
pub const QOI_OP_RUN: u8 = 0xc0;

/// Literal RGB opcode: three payload bytes follow.
pub const QOI_OP_RGB: u8 = 0xfe;

/// Literal RGBA opcode: four payload bytes follow.
pub const QOI_OP_RGBA: u8 = 0xff;

/// Second-byte pattern (top nibble all ones) marking a long-run continuation.
pub const QOI_OP_LONG_RUN: u8 = 0xf0;

/// Second-byte pattern (bottom nibble all ones) marking a long index.
pub const QOI_OP_LONG_INDEX: u8 = 0x0f;

/// First byte of the fixed 2-byte maximum-run marker (a run of 1024).
pub const QOI_OP_LONG_RUN_MAX_0: u8 = 0x80;

/// Second byte of the fixed 2-byte maximum-run marker.
pub const QOI_OP_LONG_RUN_MAX_1: u8 = 0xff;

/// Size in bytes of the fixed stream header.
pub const QOI_HEADER_SIZE: usize = 14;

/// Size in bytes of the trailing padding (seven zeros and one marker byte).
pub const QOI_PADDING_SIZE: usize = 8;

/// Upper bound on `width * height`: headers beyond it are rejected.
pub const QOI_PIXELS_MAX: u64 = 400_000_000;

} // verus!
