//! Reliable file delivery over an unreliable datagram transport.
//!
//! A sender fragments a file into fixed-size payloads, each carried in a
//! frame tagged with a sequence number and a 16-bit one's-complement
//! checksum.  A receiver reassembles the file keyed by sequence number,
//! detects gaps and corruption, and asks for selective retransmission
//! until the file is complete.  This crate holds the protocol logic:
//! the frame codec, the integrity check, the sender and receiver state
//! machines, and the control-message grammar.  Socket and file I/O live
//! outside it.

use vstd::prelude::*;

pub mod checksum;
pub mod control;
pub mod frame;
pub mod protocol;
pub mod receiver;
pub mod sender;

verus! {

/// Largest payload a single frame may carry.
pub const MAX_PAYLOAD: usize = 1472;

/// Size of the frame header on the wire.
pub const HEADER_LEN: usize = 12;

/// Sequence number of the end-of-transmission sentinel frame.
pub const END_OF_TRANSMISSION_SEQ_NUM: u32 = 0xFFFF_FFFF;

/// Largest number of sequence numbers one retransmission request names.
pub const MAX_PACKETS_PER_REQUEST: usize = 10;

/// How many consecutive no-progress timeouts the receiver tolerates.
pub const MAX_ATTEMPTS: u32 = 5;

} // verus!
