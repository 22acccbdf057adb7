//! Specialized containers.
//!
//! The `storage` module provides containers for use in other modules: a ring
//! buffer of elements, a buffer of variable-size packets and a tracker of the
//! byte ranges received so far.

pub mod assembler;
pub mod packet_buffer;
pub mod ring_buffer;

pub use self::assembler::Assembler;
pub use self::packet_buffer::{PacketBuffer, PacketMetadata};
pub use self::ring_buffer::RingBuffer;

use vstd::prelude::*;

verus! {

/// A trait for setting a value to a known state.
///
/// In-place analog of `Default`.
pub trait Resettable {
    fn reset(&mut self);
}

/// Error returned when enqueuing into a full buffer.
#[derive(Debug, PartialEq, Eq, Clone, Copy, Structural)]
pub struct Full;

/// Error returned when dequeuing from an empty buffer.
#[derive(Debug, PartialEq, Eq, Clone, Copy, Structural)]
pub struct Empty;

} // verus!
