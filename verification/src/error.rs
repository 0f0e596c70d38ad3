//! Compilation errors: a reason from a fixed taxonomy plus the byte range of
//! the offending text.

use vstd::prelude::*;
use crate::util::Quote;

verus! {

/// Why a compilation failed.
#[derive(Clone, Copy, Debug, PartialEq, Eq, Structural)]
pub enum Reason {
    // Lexical
    UnexpectedCharacter,
    InvalidNumber,
    // Syntactic
    UnexpectedSymbol,
    InvalidBitAddressSymbol,
    InvalidUnaryOperation,
    // Lowering
    NoWriteHandler,
    InvalidArgsCount,
    InvalidArgType,
    UnknownVariable,
    UnknownFunction,
    UnknownBitAddressType,
    ValueNotBitReadable,
    OutOfMemory,
}

/// A fatal compilation error, anchored at the source range that triggered it.
#[derive(Clone, Copy, Debug, PartialEq, Eq, Structural)]
pub struct Error {
    pub quote: Quote,
    pub reason: Reason,
}

/// The fixed human-readable message for each failure reason.
pub open spec fn reason_message(reason: Reason) -> Seq<char> {
    match reason {
        Reason::UnexpectedCharacter => "this character was not expected"@,
        Reason::InvalidNumber => "this number is not valid"@,
        Reason::UnexpectedSymbol => "this symbol was not expected"@,
        Reason::InvalidBitAddressSymbol => "this bit-address is invalid"@,
        Reason::InvalidUnaryOperation => "this unary operation is invalid"@,
        Reason::NoWriteHandler => "there is no write handler available for this variable"@,
        Reason::InvalidArgsCount => "the amount of args does not match the function signature"@,
        Reason::InvalidArgType => "the arguments do not match the function signature"@,
        Reason::UnknownVariable => "this variable does not exist"@,
        Reason::UnknownFunction => "this function does not exist"@,
        Reason::UnknownBitAddressType => "this bit-address type is invalid"@,
        Reason::ValueNotBitReadable => "this value is not readable"@,
        Reason::OutOfMemory => "the address space is exhausted"@,
    }
}

impl Error {
    pub fn new(quote: Quote, reason: Reason) -> (r: Error)
        ensures
            r.quote == quote,
            r.reason == reason,
    {
        Error { quote, reason }
    }

    /// The fixed human-readable message for this error's reason.
    pub fn message(&self) -> (r: &'static str)
        ensures
            r@ == reason_message(self.reason),
    {
        match self.reason {
            Reason::UnexpectedCharacter => "this character was not expected",
            Reason::InvalidNumber => "this number is not valid",
            Reason::UnexpectedSymbol => "this symbol was not expected",
            Reason::InvalidBitAddressSymbol => "this bit-address is invalid",
            Reason::InvalidUnaryOperation => "this unary operation is invalid",
            Reason::NoWriteHandler => "there is no write handler available for this variable",
            Reason::InvalidArgsCount => "the amount of args does not match the function signature",
            Reason::InvalidArgType => "the arguments do not match the function signature",
            Reason::UnknownVariable => "this variable does not exist",
            Reason::UnknownFunction => "this function does not exist",
            Reason::UnknownBitAddressType => "this bit-address type is invalid",
            Reason::ValueNotBitReadable => "this value is not readable",
            Reason::OutOfMemory => "the address space is exhausted",
        }
    }
}

} // verus!
