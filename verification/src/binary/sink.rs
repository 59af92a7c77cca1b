//! Where written bytes go.

use vstd::prelude::*;

verus! {

/// A sink of bytes in memory, which takes bytes until its limit is reached.
pub struct Sink {
    bytes: Vec<u8>,
    limit: usize,
}

impl View for Sink {
    type V = Seq<u8>;

    /// The bytes written so far.
    closed spec fn view(&self) -> Seq<u8> {
        self.bytes@
    }
}

impl Sink {
    /// How many more bytes the sink takes.
    pub closed spec fn room(&self) -> nat {
        if self.bytes.len() < self.limit {
            (self.limit - self.bytes.len()) as nat
        } else {
            0
        }
    }

    /// An empty sink that takes as many bytes as memory can address.
    pub fn new() -> (sink: Sink)
        ensures
            sink@ == Seq::<u8>::empty(),
            sink.room() == usize::MAX,
    {
        Sink { bytes: Vec::new(), limit: usize::MAX }
    }

    /// An empty sink that takes `limit` bytes and refuses every further one.
    pub fn with_limit(limit: usize) -> (sink: Sink)
        ensures
            sink@ == Seq::<u8>::empty(),
            sink.room() == limit,
    {
        Sink { bytes: Vec::new(), limit }
    }

    /// Writes `byte`, if there is room for it; says whether it was written.
    pub fn put(&mut self, byte: u8) -> (accepted: bool)
        ensures
            accepted == (old(self).room() > 0),
            accepted ==> final(self)@ == old(self)@.push(byte) && final(self).room() == old(
                self,
            ).room() - 1,
            !accepted ==> final(self)@ == old(self)@ && final(self).room() == 0,
    {
        if self.bytes.len() < self.limit {
            self.bytes.push(byte);
            true
        } else {
            false
        }
    }

    /// The number of bytes written so far.
    pub fn len(&self) -> (n: usize)
        ensures
            n == self@.len(),
    {
        self.bytes.len()
    }

    /// The bytes written so far.
    pub fn as_slice(&self) -> (bytes: &[u8])
        ensures
            bytes@ == self@,
    {
        self.bytes.as_slice()
    }

    /// Gives up the sink for the bytes written to it.
    pub fn into_bytes(self) -> (bytes: Vec<u8>)
        ensures
            bytes@ == self@,
    {
        self.bytes
    }
}

} // verus!
