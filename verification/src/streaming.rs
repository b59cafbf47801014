//! Handle for the streaming collaborator.
//!
//! Stream ingestion is an outside concern: the engine itself is pure, so
//! the library holds only the processor's handle type, and the surrounding
//! program owns the connection and the event loop.

use vstd::prelude::*;

verus! {

/// Handle owned by the part of the program that runs stream ingestion.
pub struct StreamProcessor {}

impl StreamProcessor {
    /// A fresh handle.
    pub fn new() -> (s: Self) {
        StreamProcessor {  }
    }
}

} // verus!
