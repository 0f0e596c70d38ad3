//! The builtin function table: memory and counter allocation, and the RS/SR
//! flip-flops.
//!
//! Each builtin's behaviour is captured by [`builtin_effect`]: how the call
//! checks its arguments, what value it returns, and how it advances the
//! allocator.  Variable bindings and actions are never touched by a builtin.

use vstd::prelude::*;
use std::rc::Rc;

use crate::error::{Error, Reason};
use crate::mir::ops::MirOp;
use crate::mir::value::{
    bit_readable, lemma_readable_serializable, ops_stored_ok, stored_ok, MirAddress,
    MirAddressType, MirOps, MirValue,
};
use crate::mir::{
    can_alloc_bit_spec, mir_wf, usage_spec, var_values, Mir, MirAllocator,
};
use crate::util::Quote;

verus! {

/// The builtins, by behaviour.
#[derive(Clone, Copy, Debug, PartialEq, Eq, Structural)]
pub enum BuiltinKind {
    Alloc1,
    Alloc8,
    Alloc16,
    Alloc32,
    Counter,
    Rs,
    Sr,
}

/// The builtin a call name stands for, if any: `M`/`alloc1`, `MB`/`alloc8`,
/// `MW`/`alloc16`, `MD`/`alloc32`, `Z`/`counter`, `rs`, `sr`.
pub open spec fn builtin_kind(s: Seq<u8>) -> Option<BuiltinKind> {
    if s.len() == 1 && s[0] == 77 {
        Some(BuiltinKind::Alloc1)
    } else if s.len() == 6 && s[0] == 97 && s[1] == 108 && s[2] == 108 && s[3] == 111 && s[4]
        == 99 && s[5] == 49 {
        Some(BuiltinKind::Alloc1)
    } else if s.len() == 2 && s[0] == 77 && s[1] == 66 {
        Some(BuiltinKind::Alloc8)
    } else if s.len() == 6 && s[0] == 97 && s[1] == 108 && s[2] == 108 && s[3] == 111 && s[4]
        == 99 && s[5] == 56 {
        Some(BuiltinKind::Alloc8)
    } else if s.len() == 2 && s[0] == 77 && s[1] == 87 {
        Some(BuiltinKind::Alloc16)
    } else if s.len() == 7 && s[0] == 97 && s[1] == 108 && s[2] == 108 && s[3] == 111 && s[4]
        == 99 && s[5] == 49 && s[6] == 54 {
        Some(BuiltinKind::Alloc16)
    } else if s.len() == 2 && s[0] == 77 && s[1] == 68 {
        Some(BuiltinKind::Alloc32)
    } else if s.len() == 7 && s[0] == 97 && s[1] == 108 && s[2] == 108 && s[3] == 111 && s[4]
        == 99 && s[5] == 51 && s[6] == 50 {
        Some(BuiltinKind::Alloc32)
    } else if s.len() == 1 && s[0] == 90 {
        Some(BuiltinKind::Counter)
    } else if s.len() == 7 && s[0] == 99 && s[1] == 111 && s[2] == 117 && s[3] == 110 && s[4]
        == 116 && s[5] == 101 && s[6] == 114 {
        Some(BuiltinKind::Counter)
    } else if s.len() == 2 && s[0] == 114 && s[1] == 115 {
        Some(BuiltinKind::Rs)
    } else if s.len() == 2 && s[0] == 115 && s[1] == 114 {
        Some(BuiltinKind::Sr)
    } else {
        None
    }
}

/// Looks a call name up in the builtin table.
pub fn builtin_lookup(s: &[u8]) -> (r: Option<BuiltinKind>)
    ensures
        r == builtin_kind(s@),
{
    let n = s.len();
    if n == 1 && s[0] == 77 {
        Some(BuiltinKind::Alloc1)
    } else if n == 6 && s[0] == 97 && s[1] == 108 && s[2] == 108 && s[3] == 111 && s[4] == 99
        && s[5] == 49 {
        Some(BuiltinKind::Alloc1)
    } else if n == 2 && s[0] == 77 && s[1] == 66 {
        Some(BuiltinKind::Alloc8)
    } else if n == 6 && s[0] == 97 && s[1] == 108 && s[2] == 108 && s[3] == 111 && s[4] == 99
        && s[5] == 56 {
        Some(BuiltinKind::Alloc8)
    } else if n == 2 && s[0] == 77 && s[1] == 87 {
        Some(BuiltinKind::Alloc16)
    } else if n == 7 && s[0] == 97 && s[1] == 108 && s[2] == 108 && s[3] == 111 && s[4] == 99
        && s[5] == 49 && s[6] == 54 {
        Some(BuiltinKind::Alloc16)
    } else if n == 2 && s[0] == 77 && s[1] == 68 {
        Some(BuiltinKind::Alloc32)
    } else if n == 7 && s[0] == 97 && s[1] == 108 && s[2] == 108 && s[3] == 111 && s[4] == 99
        && s[5] == 51 && s[6] == 50 {
        Some(BuiltinKind::Alloc32)
    } else if n == 1 && s[0] == 90 {
        Some(BuiltinKind::Counter)
    } else if n == 7 && s[0] == 99 && s[1] == 111 && s[2] == 117 && s[3] == 110 && s[4] == 116
        && s[5] == 101 && s[6] == 114 {
        Some(BuiltinKind::Counter)
    } else if n == 2 && s[0] == 114 && s[1] == 115 {
        Some(BuiltinKind::Rs)
    } else if n == 2 && s[0] == 115 && s[1] == 114 {
        Some(BuiltinKind::Sr)
    } else {
        None
    }
}

/// The fresh memory-bit address the allocator hands out in state `a`.
pub open spec fn fresh_bit_addr(a: MirAllocator) -> MirAddress {
    MirAddress {
        atype: MirAddressType::Memory1,
        ptr: (a.allocated_bits / 8) as u16,
        bit: (a.allocated_bits % 8) as u8,
    }
}

/// The allocator after one more bit.
pub open spec fn alloc_bit_after(a: MirAllocator) -> MirAllocator {
    MirAllocator {
        allocated_bits: (a.allocated_bits + 1) as usize,
        allocated_bytes: a.allocated_bytes,
        allocated_counters: a.allocated_counters,
    }
}

/// A flip-flop's synthesized value: guarded latch writes on `addr` followed
/// by a read of the latched bit.  `first` is applied before `second`, so the
/// `second` condition dominates when both are asserted.
pub open spec fn flipflop_ops(
    v: MirValue,
    first: MirOp,
    second: MirOp,
    addr: MirAddress,
) -> bool {
    &&& v matches MirValue::Ops(o)
    &&& o.ops@.len() == 3
    &&& o.ops@[0] == first
    &&& o.ops@[1] == second
    &&& o.ops@[2] == (MirOp::And { addr })
}

/// What a builtin call does: the exact argument checks in order, the exact
/// error each failed check raises at the call's quote, the returned value,
/// and the allocator change.
pub open spec fn builtin_effect(
    kind: BuiltinKind,
    a: MirAllocator,
    vals: Seq<MirValue>,
    quote: Quote,
    args: Seq<MirValue>,
    r: Result<MirValue, Error>,
    a2: MirAllocator,
) -> bool {
    match kind {
        BuiltinKind::Alloc1 => if args.len() != 0 {
            r == Err::<MirValue, Error>(Error { quote, reason: Reason::InvalidArgsCount }) && a2
                == a
        } else if can_alloc_bit_spec(a) {
            r == Ok::<MirValue, Error>(MirValue::Address(fresh_bit_addr(a))) && a2
                == alloc_bit_after(a)
        } else {
            r == Err::<MirValue, Error>(Error { quote, reason: Reason::OutOfMemory }) && a2 == a
        },
        BuiltinKind::Alloc8 => if args.len() != 0 {
            r == Err::<MirValue, Error>(Error { quote, reason: Reason::InvalidArgsCount }) && a2
                == a
        } else if usage_spec(a) < 65535 {
            &&& r == Ok::<MirValue, Error>(
                MirValue::Address(
                    MirAddress {
                        atype: MirAddressType::Memory8,
                        ptr: a.allocated_bytes as u16,
                        bit: 0,
                    },
                ),
            )
            &&& a2 == (MirAllocator {
                allocated_bytes: (a.allocated_bytes + 1) as usize,
                ..a
            })
        } else {
            r == Err::<MirValue, Error>(Error { quote, reason: Reason::OutOfMemory }) && a2 == a
        },
        BuiltinKind::Alloc16 => if args.len() != 0 {
            r == Err::<MirValue, Error>(Error { quote, reason: Reason::InvalidArgsCount }) && a2
                == a
        } else if usage_spec(a) < 65534 {
            &&& r == Ok::<MirValue, Error>(
                MirValue::Address(
                    MirAddress {
                        atype: MirAddressType::Memory16,
                        ptr: a.allocated_bytes as u16,
                        bit: 0,
                    },
                ),
            )
            &&& a2 == (MirAllocator {
                allocated_bytes: (a.allocated_bytes + 2) as usize,
                ..a
            })
        } else {
            r == Err::<MirValue, Error>(Error { quote, reason: Reason::OutOfMemory }) && a2 == a
        },
        BuiltinKind::Alloc32 => if args.len() != 0 {
            r == Err::<MirValue, Error>(Error { quote, reason: Reason::InvalidArgsCount }) && a2
                == a
        } else if usage_spec(a) < 65532 {
            &&& r == Ok::<MirValue, Error>(
                MirValue::Address(
                    MirAddress {
                        atype: MirAddressType::Memory32,
                        ptr: a.allocated_bytes as u16,
                        bit: 0,
                    },
                ),
            )
            &&& a2 == (MirAllocator {
                allocated_bytes: (a.allocated_bytes + 4) as usize,
                ..a
            })
        } else {
            r == Err::<MirValue, Error>(Error { quote, reason: Reason::OutOfMemory }) && a2 == a
        },
        BuiltinKind::Counter => if args.len() != 0 {
            r == Err::<MirValue, Error>(Error { quote, reason: Reason::InvalidArgsCount }) && a2
                == a
        } else if a.allocated_counters < 65535 {
            &&& r == Ok::<MirValue, Error>(
                MirValue::Address(
                    MirAddress {
                        atype: MirAddressType::PhysicalCounter,
                        ptr: a.allocated_counters,
                        bit: 0,
                    },
                ),
            )
            &&& a2 == (MirAllocator {
                allocated_counters: (a.allocated_counters + 1) as u16,
                ..a
            })
        } else {
            r == Err::<MirValue, Error>(Error { quote, reason: Reason::OutOfMemory }) && a2 == a
        },
        BuiltinKind::Rs => if args.len() != 2 {
            r == Err::<MirValue, Error>(Error { quote, reason: Reason::InvalidArgsCount }) && a2
                == a
        } else if !bit_readable(vals, args[0], vals.len() as nat) || !bit_readable(
            vals,
            args[1],
            vals.len() as nat,
        ) {
            r == Err::<MirValue, Error>(Error { quote, reason: Reason::InvalidArgType }) && a2
                == a
        } else if can_alloc_bit_spec(a) {
            &&& a2 == alloc_bit_after(a)
            &&& r matches Ok(v) && flipflop_ops(
                v,
                MirOp::ResetBit { cond: args[0], addr: fresh_bit_addr(a) },
                MirOp::SetBit { cond: args[1], addr: fresh_bit_addr(a) },
                fresh_bit_addr(a),
            )
        } else {
            r == Err::<MirValue, Error>(Error { quote, reason: Reason::OutOfMemory }) && a2 == a
        },
        BuiltinKind::Sr => if args.len() != 2 {
            r == Err::<MirValue, Error>(Error { quote, reason: Reason::InvalidArgsCount }) && a2
                == a
        } else if !bit_readable(vals, args[0], vals.len() as nat) || !bit_readable(
            vals,
            args[1],
            vals.len() as nat,
        ) {
            r == Err::<MirValue, Error>(Error { quote, reason: Reason::InvalidArgType }) && a2
                == a
        } else if can_alloc_bit_spec(a) {
            &&& a2 == alloc_bit_after(a)
            &&& r matches Ok(v) && flipflop_ops(
                v,
                MirOp::SetBit { cond: args[0], addr: fresh_bit_addr(a) },
                MirOp::ResetBit { cond: args[1], addr: fresh_bit_addr(a) },
                fresh_bit_addr(a),
            )
        } else {
            r == Err::<MirValue, Error>(Error { quote, reason: Reason::OutOfMemory }) && a2 == a
        },
    }
}

/// Fails with an invalid-argument-count error unless exactly `len` arguments
/// were passed.
pub fn assert_args_len(quote: &Quote, args: &[MirValue], len: usize) -> (r: Result<(), Error>)
    ensures
        if args@.len() == len {
            r is Ok
        } else {
            r == Err::<(), Error>(Error { quote: *quote, reason: Reason::InvalidArgsCount })
        },
{
    if args.len() != len {
        return Err(Error::new(*quote, Reason::InvalidArgsCount));
    }
    Ok(())
}

/// Fails with an invalid-argument-type error unless the value reads as a bit.
pub fn assert_bit_readable(mir: &Mir, quote: &Quote, value: &MirValue) -> (r: Result<(), Error>)
    requires
        mir_wf(*mir),
        stored_ok(var_values(*mir), *value, mir.variables@.len() as nat),
    ensures
        if bit_readable(var_values(*mir), *value, mir.variables@.len() as nat) {
            r is Ok
        } else {
            r == Err::<(), Error>(Error { quote: *quote, reason: Reason::InvalidArgType })
        },
{
    if !value.is_bit_readable(mir) {
        return Err(Error::new(*quote, Reason::InvalidArgType));
    }
    Ok(())
}

/// Allocate one memory bit.
pub fn builtin_alloc1(mir: &mut Mir, quote: Quote, args: &[MirValue]) -> (r: Result<
    MirValue,
    Error,
>)
    requires
        mir_wf(*old(mir)),
    ensures
        mir_wf(*final(mir)),
        final(mir).source == old(mir).source,
        final(mir).variables == old(mir).variables,
        final(mir).actions == old(mir).actions,
        builtin_effect(
            BuiltinKind::Alloc1,
            old(mir).allocator,
            var_values(*old(mir)),
            quote,
            args@,
            r,
            final(mir).allocator,
        ),
        r matches Ok(v) ==> stored_ok(
            var_values(*old(mir)),
            v,
            old(mir).variables@.len() as nat,
        ),
{
    match assert_args_len(&quote, args, 0) {
        Ok(()) => (),
        Err(e) => {
            return Err(e);
        },
    }
    let res = mir.allocator.alloc1();
    proof {
        crate::mir::lemma_mir_wf_allocator(*old(mir), *mir);
    }
    match res {
        Some(addr) => Ok(MirValue::Address(addr)),
        None => Err(Error::new(quote, Reason::OutOfMemory)),
    }
}

/// Allocate one memory byte.
pub fn builtin_alloc8(mir: &mut Mir, quote: Quote, args: &[MirValue]) -> (r: Result<
    MirValue,
    Error,
>)
    requires
        mir_wf(*old(mir)),
    ensures
        mir_wf(*final(mir)),
        final(mir).source == old(mir).source,
        final(mir).variables == old(mir).variables,
        final(mir).actions == old(mir).actions,
        builtin_effect(
            BuiltinKind::Alloc8,
            old(mir).allocator,
            var_values(*old(mir)),
            quote,
            args@,
            r,
            final(mir).allocator,
        ),
        r matches Ok(v) ==> stored_ok(
            var_values(*old(mir)),
            v,
            old(mir).variables@.len() as nat,
        ),
{
    match assert_args_len(&quote, args, 0) {
        Ok(()) => (),
        Err(e) => {
            return Err(e);
        },
    }
    let res = mir.allocator.alloc8();
    proof {
        crate::mir::lemma_mir_wf_allocator(*old(mir), *mir);
    }
    match res {
        Some(addr) => Ok(MirValue::Address(addr)),
        None => Err(Error::new(quote, Reason::OutOfMemory)),
    }
}

/// Allocate one memory word.
pub fn builtin_alloc16(mir: &mut Mir, quote: Quote, args: &[MirValue]) -> (r: Result<
    MirValue,
    Error,
>)
    requires
        mir_wf(*old(mir)),
    ensures
        mir_wf(*final(mir)),
        final(mir).source == old(mir).source,
        final(mir).variables == old(mir).variables,
        final(mir).actions == old(mir).actions,
        builtin_effect(
            BuiltinKind::Alloc16,
            old(mir).allocator,
            var_values(*old(mir)),
            quote,
            args@,
            r,
            final(mir).allocator,
        ),
        r matches Ok(v) ==> stored_ok(
            var_values(*old(mir)),
            v,
            old(mir).variables@.len() as nat,
        ),
{
    match assert_args_len(&quote, args, 0) {
        Ok(()) => (),
        Err(e) => {
            return Err(e);
        },
    }
    let res = mir.allocator.alloc16();
    proof {
        crate::mir::lemma_mir_wf_allocator(*old(mir), *mir);
    }
    match res {
        Some(addr) => Ok(MirValue::Address(addr)),
        None => Err(Error::new(quote, Reason::OutOfMemory)),
    }
}

/// Allocate one memory double word.
pub fn builtin_alloc32(mir: &mut Mir, quote: Quote, args: &[MirValue]) -> (r: Result<
    MirValue,
    Error,
>)
    requires
        mir_wf(*old(mir)),
    ensures
        mir_wf(*final(mir)),
        final(mir).source == old(mir).source,
        final(mir).variables == old(mir).variables,
        final(mir).actions == old(mir).actions,
        builtin_effect(
            BuiltinKind::Alloc32,
            old(mir).allocator,
            var_values(*old(mir)),
            quote,
            args@,
            r,
            final(mir).allocator,
        ),
        r matches Ok(v) ==> stored_ok(
            var_values(*old(mir)),
            v,
            old(mir).variables@.len() as nat,
        ),
{
    match assert_args_len(&quote, args, 0) {
        Ok(()) => (),
        Err(e) => {
            return Err(e);
        },
    }
    let res = mir.allocator.alloc32();
    proof {
        crate::mir::lemma_mir_wf_allocator(*old(mir), *mir);
    }
    match res {
        Some(addr) => Ok(MirValue::Address(addr)),
        None => Err(Error::new(quote, Reason::OutOfMemory)),
    }
}

/// Allocate one physical counter.
pub fn builtin_counter(mir: &mut Mir, quote: Quote, args: &[MirValue]) -> (r: Result<
    MirValue,
    Error,
>)
    requires
        mir_wf(*old(mir)),
    ensures
        mir_wf(*final(mir)),
        final(mir).source == old(mir).source,
        final(mir).variables == old(mir).variables,
        final(mir).actions == old(mir).actions,
        builtin_effect(
            BuiltinKind::Counter,
            old(mir).allocator,
            var_values(*old(mir)),
            quote,
            args@,
            r,
            final(mir).allocator,
        ),
        r matches Ok(v) ==> stored_ok(
            var_values(*old(mir)),
            v,
            old(mir).variables@.len() as nat,
        ),
{
    match assert_args_len(&quote, args, 0) {
        Ok(()) => (),
        Err(e) => {
            return Err(e);
        },
    }
    let res = mir.allocator.alloc_counter();
    proof {
        crate::mir::lemma_mir_wf_allocator(*old(mir), *mir);
    }
    match res {
        Some(addr) => Ok(MirValue::Address(addr)),
        None => Err(Error::new(quote, Reason::OutOfMemory)),
    }
}

/// RS flip-flop: `rs(r, s)` resets on `r`, then sets on `s`, then reads the
/// latched bit — set dominates when both are asserted at once.
pub fn builtin_rs(mir: &mut Mir, quote: Quote, args: &[MirValue]) -> (r: Result<MirValue, Error>)
    requires
        mir_wf(*old(mir)),
        forall|k: int|
            0 <= k < args@.len() ==> stored_ok(
                var_values(*old(mir)),
                #[trigger] args@[k],
                old(mir).variables@.len() as nat,
            ),
    ensures
        mir_wf(*final(mir)),
        final(mir).source == old(mir).source,
        final(mir).variables == old(mir).variables,
        final(mir).actions == old(mir).actions,
        builtin_effect(
            BuiltinKind::Rs,
            old(mir).allocator,
            var_values(*old(mir)),
            quote,
            args@,
            r,
            final(mir).allocator,
        ),
        r matches Ok(v) ==> stored_ok(
            var_values(*old(mir)),
            v,
            old(mir).variables@.len() as nat,
        ),
{
    let ghost vals = var_values(*mir);
    let ghost n = mir.variables@.len() as nat;
    match assert_args_len(&quote, args, 2) {
        Ok(()) => (),
        Err(e) => {
            return Err(e);
        },
    }
    match assert_bit_readable(mir, &quote, &args[0]) {
        Ok(()) => (),
        Err(e) => {
            return Err(e);
        },
    }
    match assert_bit_readable(mir, &quote, &args[1]) {
        Ok(()) => (),
        Err(e) => {
            return Err(e);
        },
    }
    let res = mir.allocator.alloc1();
    proof {
        crate::mir::lemma_mir_wf_allocator(*old(mir), *mir);
    }
    let addr = match res {
        Some(a) => a,
        None => {
            return Err(Error::new(quote, Reason::OutOfMemory));
        },
    };
    proof {
        lemma_readable_serializable(vals, args@[0], n);
        lemma_readable_serializable(vals, args@[1], n);
    }
    let reset_bit = MirOp::ResetBit { cond: args[0].clone(), addr };
    let set_bit = MirOp::SetBit { cond: args[1].clone(), addr };
    let and = MirOp::And { addr };
    let mut ops: Vec<MirOp> = Vec::new();
    ops.push(reset_bit);
    ops.push(set_bit);
    ops.push(and);
    proof {
        let tail2 = seq![MirOp::And { addr }];
        let tail1 = seq![MirOp::SetBit { cond: args@[1], addr }, MirOp::And { addr }];
        assert(ops@.len() == 3);
        assert(ops@[0] == MirOp::ResetBit { cond: args@[0], addr });
        assert(ops@[1] == MirOp::SetBit { cond: args@[1], addr });
        assert(ops@[2] == MirOp::And { addr });
        assert(ops@.drop_first() =~= tail1);
        assert(tail1.drop_first() =~= tail2);
        assert(tail2.drop_first() =~= Seq::<MirOp>::empty());
        assert(ops_stored_ok(vals, Seq::<MirOp>::empty(), n));
        assert(ops_stored_ok(vals, tail2, n));
        assert(ops_stored_ok(vals, tail1, n));
        assert(ops_stored_ok(vals, ops@, n));
    }
    let result = MirValue::Ops(Rc::new(MirOps { ops }));
    proof {
        assert(stored_ok(vals, result, n));
    }
    Ok(result)
}

/// SR flip-flop: `sr(s, r)` sets on `s`, then resets on `r`, then reads the
/// latched bit — reset dominates when both are asserted at once.
pub fn builtin_sr(mir: &mut Mir, quote: Quote, args: &[MirValue]) -> (r: Result<MirValue, Error>)
    requires
        mir_wf(*old(mir)),
        forall|k: int|
            0 <= k < args@.len() ==> stored_ok(
                var_values(*old(mir)),
                #[trigger] args@[k],
                old(mir).variables@.len() as nat,
            ),
    ensures
        mir_wf(*final(mir)),
        final(mir).source == old(mir).source,
        final(mir).variables == old(mir).variables,
        final(mir).actions == old(mir).actions,
        builtin_effect(
            BuiltinKind::Sr,
            old(mir).allocator,
            var_values(*old(mir)),
            quote,
            args@,
            r,
            final(mir).allocator,
        ),
        r matches Ok(v) ==> stored_ok(
            var_values(*old(mir)),
            v,
            old(mir).variables@.len() as nat,
        ),
{
    let ghost vals = var_values(*mir);
    let ghost n = mir.variables@.len() as nat;
    match assert_args_len(&quote, args, 2) {
        Ok(()) => (),
        Err(e) => {
            return Err(e);
        },
    }
    match assert_bit_readable(mir, &quote, &args[0]) {
        Ok(()) => (),
        Err(e) => {
            return Err(e);
        },
    }
    match assert_bit_readable(mir, &quote, &args[1]) {
        Ok(()) => (),
        Err(e) => {
            return Err(e);
        },
    }
    let res = mir.allocator.alloc1();
    proof {
        crate::mir::lemma_mir_wf_allocator(*old(mir), *mir);
    }
    let addr = match res {
        Some(a) => a,
        None => {
            return Err(Error::new(quote, Reason::OutOfMemory));
        },
    };
    proof {
        lemma_readable_serializable(vals, args@[0], n);
        lemma_readable_serializable(vals, args@[1], n);
    }
    let set_bit = MirOp::SetBit { cond: args[0].clone(), addr };
    let reset_bit = MirOp::ResetBit { cond: args[1].clone(), addr };
    let and = MirOp::And { addr };
    let mut ops: Vec<MirOp> = Vec::new();
    ops.push(set_bit);
    ops.push(reset_bit);
    ops.push(and);
    proof {
        let tail2 = seq![MirOp::And { addr }];
        let tail1 = seq![MirOp::ResetBit { cond: args@[1], addr }, MirOp::And { addr }];
        assert(ops@.len() == 3);
        assert(ops@[0] == MirOp::SetBit { cond: args@[0], addr });
        assert(ops@[1] == MirOp::ResetBit { cond: args@[1], addr });
        assert(ops@[2] == MirOp::And { addr });
        assert(ops@.drop_first() =~= tail1);
        assert(tail1.drop_first() =~= tail2);
        assert(tail2.drop_first() =~= Seq::<MirOp>::empty());
        assert(ops_stored_ok(vals, Seq::<MirOp>::empty(), n));
        assert(ops_stored_ok(vals, tail2, n));
        assert(ops_stored_ok(vals, tail1, n));
        assert(ops_stored_ok(vals, ops@, n));
    }
    let result = MirValue::Ops(Rc::new(MirOps { ops }));
    proof {
        assert(stored_ok(vals, result, n));
    }
    Ok(result)
}

/// Invokes the builtin of the given kind.
pub fn call_builtin(mir: &mut Mir, kind: BuiltinKind, quote: Quote, args: &[MirValue]) -> (r:
    Result<MirValue, Error>)
    requires
        mir_wf(*old(mir)),
        forall|k: int|
            0 <= k < args@.len() ==> stored_ok(
                var_values(*old(mir)),
                #[trigger] args@[k],
                old(mir).variables@.len() as nat,
            ),
    ensures
        mir_wf(*final(mir)),
        final(mir).source == old(mir).source,
        final(mir).variables == old(mir).variables,
        final(mir).actions == old(mir).actions,
        builtin_effect(
            kind,
            old(mir).allocator,
            var_values(*old(mir)),
            quote,
            args@,
            r,
            final(mir).allocator,
        ),
        r matches Ok(v) ==> stored_ok(
            var_values(*old(mir)),
            v,
            old(mir).variables@.len() as nat,
        ),
{
    match kind {
        BuiltinKind::Alloc1 => builtin_alloc1(mir, quote, args),
        BuiltinKind::Alloc8 => builtin_alloc8(mir, quote, args),
        BuiltinKind::Alloc16 => builtin_alloc16(mir, quote, args),
        BuiltinKind::Alloc32 => builtin_alloc32(mir, quote, args),
        BuiltinKind::Counter => builtin_counter(mir, quote, args),
        BuiltinKind::Rs => builtin_rs(mir, quote, args),
        BuiltinKind::Sr => builtin_sr(mir, quote, args),
    }
}

} // verus!

verus! {

/// What a latch operation does to the latched bit when its condition
/// evaluates as given: an asserted set turns the bit on, an asserted reset
/// turns it off, and a plain read leaves it unchanged.
pub open spec fn apply_op(bit: bool, op: MirOp, ev: spec_fn(MirValue) -> bool) -> bool {
    match op {
        MirOp::SetBit { cond, .. } => if ev(cond) {
            true
        } else {
            bit
        },
        MirOp::ResetBit { cond, .. } => if ev(cond) {
            false
        } else {
            bit
        },
        MirOp::And { .. } => bit,
    }
}

/// The latched bit after an operation sequence runs left to right.
pub open spec fn run_ops(bit: bool, ops: Seq<MirOp>, ev: spec_fn(MirValue) -> bool) -> bool
    decreases ops.len(),
{
    if ops.len() == 0 {
        bit
    } else {
        run_ops(apply_op(bit, ops[0], ev), ops.drop_first(), ev)
    }
}

/// Law: when both conditions of a synthesized flip-flop are asserted at
/// once, the operation applied second dominates, whatever the bit held
/// before.  For `rs(r, s)` the set is applied second, so the read-back bit
/// ends up set; for `sr(s, r)` the reset is applied second, so it ends up
/// clear.
pub proof fn lemma_flipflop_dominance(
    v: MirValue,
    first: MirOp,
    second: MirOp,
    addr: MirAddress,
    ev: spec_fn(MirValue) -> bool,
    init: bool,
)
    requires
        flipflop_ops(v, first, second, addr),
        first is SetBit || first is ResetBit,
        second is SetBit || second is ResetBit,
        ev(crate::mir::optimizer::op_cond(first)),
        ev(crate::mir::optimizer::op_cond(second)),
    ensures
        run_ops(init, v->Ops_0.ops@, ev) == second is SetBit,
{
    let ops = v->Ops_0.ops@;
    let b1 = apply_op(init, ops[0], ev);
    assert(run_ops(init, ops, ev) == run_ops(b1, ops.drop_first(), ev));
    let t1 = ops.drop_first();
    assert(t1[0] == ops[1]);
    let b2 = apply_op(b1, t1[0], ev);
    assert(run_ops(b1, t1, ev) == run_ops(b2, t1.drop_first(), ev));
    let t2 = t1.drop_first();
    assert(t2[0] == ops[2]);
    let b3 = apply_op(b2, t2[0], ev);
    assert(run_ops(b2, t2, ev) == run_ops(b3, t2.drop_first(), ev));
    assert(t2.drop_first() =~= Seq::<MirOp>::empty());
    assert(run_ops(b3, t2.drop_first(), ev) == b3);
    assert(b2 == second is SetBit);
    assert(b3 == b2);
}

} // verus!
