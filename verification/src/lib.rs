//! A fixed-capacity in-memory log of short byte records, packed into one
//! byte buffer with delimiter framing. Appends evict the oldest records as
//! space runs out; a replay returns the live records oldest to newest.
pub mod circular_buffer;
pub mod records;

pub use circular_buffer::{BufferError, CircularBuffer, CircularBufferIterator};

use vstd::prelude::*;

verus! {

} // verus!
