//! The end-of-stream marker a finished producer leaves behind.

use vstd::prelude::*;

verus! {

/// A marker that a worker's inbound stream has ended: the producer that
/// owned it wrote everything it will ever write.
pub struct Writer {
    end: bool,
}

impl Writer {
    /// Whether the stream has ended.
    pub closed spec fn is_end(&self) -> bool {
        self.end
    }

    /// A marker that already signals the end, made by the producer as
    /// its last act.
    pub fn new() -> (w: Writer)
        ensures
            w.is_end(),
    {
        Writer { end: true }
    }

    /// Whether the stream has ended.
    pub fn end(&self) -> (r: bool)
        ensures
            r == self.is_end(),
    {
        self.end
    }
}

} // verus!
