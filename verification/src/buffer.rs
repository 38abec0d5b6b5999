//! The telemetry buffer: one shared, append-only text buffer. The listener
//! appends each datagram's bytes; after a measured run the consumer drains
//! it, reading everything and clearing it. The lock around it lives with the
//! process plumbing; the buffer itself is plain data.

use vstd::prelude::*;

use crate::bytes::copy_bytes;

verus! {

/// Accumulated telemetry bytes.
pub struct TelemetryBuffer {
    pub data: Vec<u8>,
}

impl TelemetryBuffer {
    /// What the buffer holds.
    pub open spec fn contents(self) -> Seq<u8> {
        self.data@
    }

    pub fn new() -> (b: TelemetryBuffer)
        ensures
            b.contents() == Seq::<u8>::empty(),
    {
        let b = TelemetryBuffer { data: Vec::new() };
        proof {
            assert(b.contents() =~= Seq::<u8>::empty());
        }
        b
    }

    /// Append one datagram's bytes.
    pub fn append(&mut self, datagram: &[u8])
        ensures
            final(self).contents() == old(self).contents() + datagram@,
    {
        crate::bytes::append_bytes(&mut self.data, datagram);
    }

    /// Read everything and clear the buffer.
    pub fn drain(&mut self) -> (out: Vec<u8>)
        ensures
            out@ == old(self).contents(),
            final(self).contents() == Seq::<u8>::empty(),
    {
        let out = copy_bytes(self.data.as_slice());
        self.data = Vec::new();
        proof {
            assert(self.contents() =~= Seq::<u8>::empty());
        }
        out
    }
}

} // verus!
