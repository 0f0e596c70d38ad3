//! The low-level representation: the target's instruction form and the
//! validating translation into it.

pub mod error;
pub mod s7;
