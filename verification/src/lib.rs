//! Steganographic concealment of messages in the arbitrarily significant
//! bits of binary data.
//!
//! A carrier conceals a payload in cover data and so produces a package; the
//! package reveals the message again. The [`binary`] module does both on
//! bytes, with a bit pattern as the key that sender and receiver share.

use vstd::prelude::*;

pub mod binary;

verus! {

/// Why a message could not be concealed or revealed in full.
#[derive(Debug, Clone, Copy, PartialEq, Eq, Structural)]
pub enum Error {
    /// There was no room: the cover cannot carry the payload, or the sink
    /// takes no more bytes.
    NoSpace,
}

/// An object that can conceal a message: a carrier.
pub trait Conceal {
    /// Conceals `payload` in `cover` and returns how many bytes were written
    /// in total.
    fn conceal(self, payload: &[u8], cover: &[u8]) -> Result<usize, Error>;
}

/// An object that can reveal a message: a package.
pub trait Reveal {
    /// Writes the hidden message to `output` and returns how many bytes were
    /// written.
    fn reveal_into(self, output: &mut binary::Sink) -> Result<usize, Error>;
}

} // verus!
