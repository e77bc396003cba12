//! The line buffer a caller reads commands into.  Filling it from a
//! terminal is the caller's business; the core only defines the holder.

use vstd::prelude::*;

verus! {

/// One line of caller input.
pub struct InputBuffer {
    pub buffer: String,
}

impl InputBuffer {
    /// An empty buffer, ready for the first line.
    pub fn new() -> (r: InputBuffer)
        ensures
            r.buffer@.len() == 0,
    {
        InputBuffer { buffer: String::new() }
    }
}

} // verus!
