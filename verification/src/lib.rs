//! A length-prefixed, optionally encrypted, packet-typed binary protocol:
//! a runtime-extensible codec stack, a packet registry keyed by numeric
//! packet id, a symmetric XOR feedback stream cipher, and a connection
//! state machine that frames packets off a raw byte stream.

use vstd::prelude::*;

pub mod bytes;
pub mod codec;
pub mod connection;
pub mod crypto;
pub mod packet;
pub mod value;

verus! {

/// Frames longer than this many bytes are rejected by the receive path.
pub const MAX_FRAME_LEN: usize = 65536;

/// The frame header: a 4-byte length followed by a 4-byte packet id.
pub const FRAME_HEADER_LEN: usize = 8;

} // verus!
