//! Failures of the final translation: malformed bracket nesting and
//! address-class mismatches.

use vstd::prelude::*;

verus! {

#[derive(Clone, Copy, Debug, PartialEq, Eq, Structural)]
pub enum Error {
    /// Bracket nesting pushed past the machine's stack depth or popped an
    /// empty stack.
    InvalidStack,
    /// A bit-class instruction met an address that names no bit.
    NonBitAddress,
    /// A transfer met an address that names no byte, word or double word.
    NonByteAddress,
    /// A counter instruction met an address that names no counter.
    NonCounterAddress,
}

} // verus!
