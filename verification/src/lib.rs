//! Consistent Overhead Byte Stuffing (COBS).
//!
//! A framing transform that removes every zero byte from an arbitrary byte
//! sequence, so the result can be delimited by a reserved zero byte on a
//! stream. The encoded form is a sequence of blocks: one length-prefix byte
//! `L` (1..=255) followed by `L - 1` payload bytes. A prefix of 255 marks a
//! block cut by the 254-byte length cap rather than by a real zero.

pub mod cobs;
