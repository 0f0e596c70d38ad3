//! Primitive operations that a builtin expands into: latch writes guarded by
//! a condition, and a plain bit test.

use vstd::prelude::*;
use crate::mir::value::{MirAddress, MirValue};

verus! {

#[derive(Debug)]
pub enum MirOp {
    /// `S addr`, applied when `cond` evaluates to a set accumulator.
    SetBit { cond: MirValue, addr: MirAddress },
    /// `R addr`, applied when `cond` evaluates to a set accumulator.
    ResetBit { cond: MirValue, addr: MirAddress },
    /// `U addr`: read the bit back.
    And { addr: MirAddress },
}

impl Clone for MirOp {
    fn clone(&self) -> (r: MirOp)
        ensures
            r == *self,
    {
        match self {
            MirOp::SetBit { cond, addr } => MirOp::SetBit { cond: cond.clone(), addr: *addr },
            MirOp::ResetBit { cond, addr } => MirOp::ResetBit { cond: cond.clone(), addr: *addr },
            MirOp::And { addr } => MirOp::And { addr: *addr },
        }
    }
}

} // verus!
