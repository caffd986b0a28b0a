//! The ways in which reading or writing a message can fail.

use vstd::prelude::*;

verus! {

#[derive(Copy, Clone, Debug, PartialEq, Eq, Structural)]
pub enum DnsError {
    /// A read or write would cross the end of the buffer.
    OutOfBounds,
    /// A label of a name is longer than 63 bytes.
    LabelTooLong,
    /// A name needs more than five compression jumps.
    NameLoop,
    /// A message cannot be expressed: a section has more entries than a 16-bit count can hold.
    ProtocolError,
}

} // verus!
