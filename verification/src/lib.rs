//! SLIP-style byte-stuffing framing codec with fixed-capacity buffers.
//!
//! A payload is framed by escaping the reserved bytes `END` and `ESC` and
//! terminating the frame with a single `END` byte, optionally preceded by a
//! leading `END` header that lets a receiver resynchronize on a noisy stream.
//! Encoding and decoding are incremental: input may arrive in arbitrary
//! chunks, and each call reports exactly how many input bytes it consumed.

use vstd::prelude::*;

pub mod buffer_basic;
pub mod buffer_decoder;
pub mod buffer_encoder;
pub mod error;

pub use buffer_basic::BasicBuffer;
pub use buffer_decoder::DecoderBuffer;
pub use buffer_encoder::EncoderBuffer;
pub use error::BufferError;
pub use error::BufferResult;
pub use error::Error;

verus! {

/// Frame terminator; also used as the optional leading header byte.
pub const END: u8 = 0xC0;

/// Escape introducer: precedes the two-byte substitute for a reserved byte.
pub const ESC: u8 = 0xDB;

/// Second byte of the escape sequence standing for a literal `END`.
pub const ESC_END: u8 = 0xDC;

/// Second byte of the escape sequence standing for a literal `ESC`.
pub const ESC_ESC: u8 = 0xDD;

} // verus!
