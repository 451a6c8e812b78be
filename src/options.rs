use vstd::prelude::*;

verus! {

/// Default capacity of the buffer between a producing stream and its blocking reader.
pub const STREAM_BUFFER_SIZE: usize = 128;

/// Parameters for turning an asynchronous stream into a blocking iterator.
pub struct RunStreamOptions {
    pub buffer_size: usize,
}

impl RunStreamOptions {
    /// Options with the default buffer size.
    pub fn new() -> (r: Self)
        ensures
            r.buffer_size == STREAM_BUFFER_SIZE,
    {
        RunStreamOptions { buffer_size: STREAM_BUFFER_SIZE }
    }

    /// Sets the buffer size and hands the options back for chaining.
    pub fn buffer_size(&mut self, buffer_size: usize) -> (r: &mut Self)
        ensures
            r.buffer_size == buffer_size,
            final(self).buffer_size == final(r).buffer_size,
    {
        self.buffer_size = buffer_size;
        self
    }
}

} // verus!
