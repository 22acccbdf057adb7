//! Compile-time limits of the stack.

use vstd::prelude::*;

verus! {

/// Size of the buffer that holds a packet being sent in fragments.
pub const FRAGMENTATION_BUFFER_SIZE: usize = 1500;

/// Number of packets that can be reassembled at the same time.
pub const REASSEMBLY_BUFFER_COUNT: usize = 4;

} // verus!
