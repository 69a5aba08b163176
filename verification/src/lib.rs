//! Serial Line Internet Protocol (SLIP) framing, RFC 1055.
//!
//! SLIP turns a stream of bytes into packets and back. On the wire a packet is
//! its payload between two `END` bytes; an `END` or `ESC` byte inside the
//! payload travels as an escape sequence of two bytes. There is no length, no
//! checksum and no addressing: SLIP only says where a packet begins and ends.
//!
//! Both directions work on buffers that the caller supplies, allocate nothing
//! and can be resumed at any byte:
//!
//! - an [`Encoder`] takes the payload of one packet in as many chunks as the
//!   caller likes, then `finish` closes the packet;
//! - a [`Decoder`] takes the wire bytes in chunks of any size and says after
//!   each call how many bytes it consumed, which payload bytes it wrote, and
//!   whether it reached the end of a packet.
//!
//! A decoder asks for the leading `END` once, before its first packet. From
//! then on it stays in the stream, where an `END` closes a packet, so that one
//! `END` between two packets serves both. A call that fails on a malformed
//! stream leaves the decoder as it found it.
//!
//! The module [`wire`] defines the wire format, [`laws`] states what holds of
//! encoder and decoder together.

pub mod decoder;
pub mod encoder;
pub mod error;
pub mod laws;
pub mod wire;

pub use decoder::Decoder;
pub use encoder::{EncodeTotals, Encoder};
pub use error::{Error, Result};
