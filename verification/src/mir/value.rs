//! The mid-level value model: resolved addresses, literals, shared boolean
//! expression trees, variable references, and builtin-synthesized operation
//! sequences.

use vstd::prelude::*;
use std::rc::Rc;

use crate::mir::ops::MirOp;
use crate::mir::{var_values, Mir};

verus! {

/// The class of a resolved address.  Physical input/output/counter addresses
/// come from source literals; the memory classes are allocator-assigned.
#[derive(Clone, Copy, Debug, PartialEq, Eq, Structural)]
pub enum MirAddressType {
    PhysicalInput1,
    PhysicalOutput1,
    PhysicalCounter,
    Memory1,
    Memory8,
    Memory16,
    Memory32,
}

/// A fully resolved address: class, pointer, and bit index within the byte.
#[derive(Clone, Copy, Debug, PartialEq, Eq, Structural)]
pub struct MirAddress {
    pub atype: MirAddressType,
    pub ptr: u16,
    pub bit: u8,
}

/// Physical addresses map to I/O or counter hardware.
pub open spec fn is_physical_spec(a: MirAddress) -> bool {
    a.atype == MirAddressType::PhysicalInput1 || a.atype == MirAddressType::PhysicalOutput1
        || a.atype == MirAddressType::PhysicalCounter
}

/// Bit-class addresses name a single bit.
pub open spec fn is_bit_address_spec(a: MirAddress) -> bool {
    a.atype == MirAddressType::PhysicalInput1 || a.atype == MirAddressType::PhysicalOutput1
        || a.atype == MirAddressType::Memory1
}

/// Byte-class addresses name a byte, word or double word of memory.
pub open spec fn is_any_byte_address_spec(a: MirAddress) -> bool {
    a.atype == MirAddressType::Memory8 || a.atype == MirAddressType::Memory16 || a.atype
        == MirAddressType::Memory32
}

impl MirAddress {
    pub fn is_physical(self) -> (r: bool)
        ensures
            r == is_physical_spec(self),
    {
        matches!(
            self.atype,
            MirAddressType::PhysicalInput1 | MirAddressType::PhysicalOutput1
                | MirAddressType::PhysicalCounter
        )
    }

    pub fn is_virtual(self) -> (r: bool)
        ensures
            r == !is_physical_spec(self),
    {
        !self.is_physical()
    }

    /// Checks if the address points to a `BIT`.
    pub fn is_bit_address(self) -> (r: bool)
        ensures
            r == is_bit_address_spec(self),
    {
        matches!(
            self.atype,
            MirAddressType::PhysicalInput1 | MirAddressType::PhysicalOutput1
                | MirAddressType::Memory1
        )
    }

    /// Checks if the address points to a `BYTE`, `WORD` or `DWORD`.
    pub fn is_any_byte_address(self) -> (r: bool)
        ensures
            r == is_any_byte_address_spec(self),
    {
        matches!(
            self.atype,
            MirAddressType::Memory8 | MirAddressType::Memory16 | MirAddressType::Memory32
        )
    }
}

/// `true`, `false`
#[derive(Clone, Copy, Debug)]
pub struct MirBool {
    pub value: bool,
}

/// A number literal.
#[derive(Clone, Copy, Debug)]
pub struct MirNumber {
    pub value: usize,
}

/// A reference to the variable at the given slot index.
#[derive(Clone, Copy, Debug)]
pub struct MirVarRef {
    pub index: usize,
}

/// A series of operations expected to leave a bit value on the accumulator.
#[derive(Debug)]
pub struct MirOps {
    pub ops: Vec<MirOp>,
}

/// `not value`
#[derive(Debug)]
pub struct MirNot {
    pub value: MirValue,
}

/// `left and right`
#[derive(Debug)]
pub struct MirAnd {
    pub left: MirValue,
    pub right: MirValue,
}

/// `left or right`
#[derive(Debug)]
pub struct MirOr {
    pub left: MirValue,
    pub right: MirValue,
}

/// `left xor right`
#[derive(Debug)]
pub struct MirXor {
    pub left: MirValue,
    pub right: MirValue,
}

/// A lowered value.  Boolean sub-trees are shared through reference counting,
/// since the same sub-expression can be referenced from several bindings.
#[derive(Debug)]
pub enum MirValue {
    Unit,
    Bool(MirBool),
    Number(MirNumber),
    Address(MirAddress),
    VarRef(MirVarRef),
    Ops(Rc<MirOps>),
    Not(Rc<MirNot>),
    And(Rc<MirAnd>),
    Or(Rc<MirOr>),
    Xor(Rc<MirXor>),
}

impl Clone for MirValue {
    fn clone(&self) -> (r: MirValue)
        ensures
            r == *self,
    {
        match self {
            MirValue::Unit => MirValue::Unit,
            MirValue::Bool(b) => MirValue::Bool(*b),
            MirValue::Number(n) => MirValue::Number(*n),
            MirValue::Address(a) => MirValue::Address(*a),
            MirValue::VarRef(v) => MirValue::VarRef(*v),
            MirValue::Ops(o) => MirValue::Ops(o.clone()),
            MirValue::Not(n) => MirValue::Not(n.clone()),
            MirValue::And(a) => MirValue::And(a.clone()),
            MirValue::Or(o) => MirValue::Or(o.clone()),
            MirValue::Xor(x) => MirValue::Xor(x.clone()),
        }
    }
}

/// A value fit to be stored at slot `bound` (or lowered while `bound` slots
/// exist): every variable reference points below `bound`, and every operation
/// sequence carries serializable conditions.
pub open spec fn stored_ok(vars: Seq<MirValue>, v: MirValue, bound: nat) -> bool
    decreases bound, v,
{
    match v {
        MirValue::Unit => true,
        MirValue::Bool(_) => true,
        MirValue::Number(_) => true,
        MirValue::Address(_) => true,
        MirValue::VarRef(r) => r.index < bound,
        MirValue::Ops(o) => o.ops@.len() > 0 && ops_stored_ok(vars, o.ops@, bound),
        MirValue::Not(n) => stored_ok(vars, n.value, bound),
        MirValue::And(a) => stored_ok(vars, a.left, bound) && stored_ok(vars, a.right, bound),
        MirValue::Or(a) => stored_ok(vars, a.left, bound) && stored_ok(vars, a.right, bound),
        MirValue::Xor(a) => stored_ok(vars, a.left, bound) && stored_ok(vars, a.right, bound),
    }
}

pub open spec fn ops_stored_ok(vars: Seq<MirValue>, ops: Seq<MirOp>, bound: nat) -> bool
    decreases bound, ops,
{
    if ops.len() == 0 {
        true
    } else {
        (match ops[0] {
            MirOp::SetBit { cond, .. } => serializable(vars, cond, bound),
            MirOp::ResetBit { cond, .. } => serializable(vars, cond, bound),
            MirOp::And { .. } => true,
        }) && ops_stored_ok(vars, ops.drop_first(), bound)
    }
}

/// A value the instruction writer can serialize: a bit address, a reference
/// chain ending in one, an operation sequence with serializable conditions,
/// or a boolean tree over such values.
pub open spec fn serializable(vars: Seq<MirValue>, v: MirValue, bound: nat) -> bool
    decreases bound, v,
{
    match v {
        MirValue::Unit => false,
        MirValue::Bool(_) => false,
        MirValue::Number(_) => false,
        MirValue::Address(a) => is_bit_address_spec(a),
        MirValue::VarRef(r) => r.index < bound && serializable(vars, vars[r.index as int], r.index as nat),
        MirValue::Ops(o) => o.ops@.len() > 0 && ops_stored_ok(vars, o.ops@, bound),
        MirValue::Not(n) => serializable(vars, n.value, bound),
        MirValue::And(a) => serializable(vars, a.left, bound) && serializable(vars, a.right, bound),
        MirValue::Or(a) => serializable(vars, a.left, bound) && serializable(vars, a.right, bound),
        MirValue::Xor(a) => serializable(vars, a.left, bound) && serializable(vars, a.right, bound),
    }
}

/// What the readability test of the write and call paths computes: operation
/// sequences and bit addresses read as bits; a reference reads as its
/// target does; a boolean node reads as a bit when all children do.
pub open spec fn bit_readable(vars: Seq<MirValue>, v: MirValue, bound: nat) -> bool
    decreases bound, v,
{
    match v {
        MirValue::Unit => false,
        MirValue::Bool(_) => false,
        MirValue::Number(_) => false,
        MirValue::Address(a) => is_bit_address_spec(a),
        MirValue::VarRef(r) => r.index < bound && bit_readable(vars, vars[r.index as int], r.index as nat),
        MirValue::Ops(_) => true,
        MirValue::Not(n) => bit_readable(vars, n.value, bound),
        MirValue::And(a) => bit_readable(vars, a.left, bound) && bit_readable(vars, a.right, bound),
        MirValue::Or(a) => bit_readable(vars, a.left, bound) && bit_readable(vars, a.right, bound),
        MirValue::Xor(a) => bit_readable(vars, a.left, bound) && bit_readable(vars, a.right, bound),
    }
}

/// All slots of `vars` hold values fit for their own index.
pub open spec fn vars_ok(vars: Seq<MirValue>) -> bool {
    forall|j: int| 0 <= j < vars.len() ==> stored_ok(vars, #[trigger] vars[j], j as nat)
}


/// Raising the slot bound keeps a value storable.
pub proof fn lemma_stored_ok_widen(vars: Seq<MirValue>, v: MirValue, bound: nat, wider: nat)
    requires
        stored_ok(vars, v, bound),
        bound <= wider,
    ensures
        stored_ok(vars, v, wider),
    decreases bound, v,
{
    if v is Ops {
        let ops = v->Ops_0.ops@;
        lemma_ops_stored_ok_widen(vars, ops, bound, wider);
    } else if v is Not {
        let inner = v->Not_0.value;
        lemma_stored_ok_widen(vars, inner, bound, wider);
    } else if v is And {
        let l = v->And_0.left;
        let r = v->And_0.right;
        lemma_stored_ok_widen(vars, l, bound, wider);
        lemma_stored_ok_widen(vars, r, bound, wider);
    } else if v is Or {
        let l = v->Or_0.left;
        let r = v->Or_0.right;
        lemma_stored_ok_widen(vars, l, bound, wider);
        lemma_stored_ok_widen(vars, r, bound, wider);
    } else if v is Xor {
        let l = v->Xor_0.left;
        let r = v->Xor_0.right;
        lemma_stored_ok_widen(vars, l, bound, wider);
        lemma_stored_ok_widen(vars, r, bound, wider);
    }
}

pub proof fn lemma_ops_stored_ok_widen(
    vars: Seq<MirValue>,
    ops: Seq<MirOp>,
    bound: nat,
    wider: nat,
)
    requires
        ops_stored_ok(vars, ops, bound),
        bound <= wider,
    ensures
        ops_stored_ok(vars, ops, wider),
    decreases bound, ops,
{
    if ops.len() > 0 {
        if ops[0] is SetBit {
            let cond = ops[0]->SetBit_cond;
            lemma_serializable_widen(vars, cond, bound, wider);
        } else if ops[0] is ResetBit {
            let cond = ops[0]->ResetBit_cond;
            lemma_serializable_widen(vars, cond, bound, wider);
        }
        lemma_ops_stored_ok_widen(vars, ops.drop_first(), bound, wider);
    }
}

pub proof fn lemma_serializable_widen(vars: Seq<MirValue>, v: MirValue, bound: nat, wider: nat)
    requires
        serializable(vars, v, bound),
        bound <= wider,
    ensures
        serializable(vars, v, wider),
    decreases bound, v,
{
    if v is Ops {
        let ops = v->Ops_0.ops@;
        lemma_ops_stored_ok_widen(vars, ops, bound, wider);
    } else if v is Not {
        let inner = v->Not_0.value;
        lemma_serializable_widen(vars, inner, bound, wider);
    } else if v is And {
        let l = v->And_0.left;
        let r = v->And_0.right;
        lemma_serializable_widen(vars, l, bound, wider);
        lemma_serializable_widen(vars, r, bound, wider);
    } else if v is Or {
        let l = v->Or_0.left;
        let r = v->Or_0.right;
        lemma_serializable_widen(vars, l, bound, wider);
        lemma_serializable_widen(vars, r, bound, wider);
    } else if v is Xor {
        let l = v->Xor_0.left;
        let r = v->Xor_0.right;
        lemma_serializable_widen(vars, l, bound, wider);
        lemma_serializable_widen(vars, r, bound, wider);
    }
}

/// The predicates only inspect slots below `bound`, so agreeing variable
/// lists agree on them.
pub proof fn lemma_serializable_frame(
    vars1: Seq<MirValue>,
    vars2: Seq<MirValue>,
    v: MirValue,
    bound: nat,
)
    requires
        bound <= vars1.len(),
        bound <= vars2.len(),
        forall|j: int| 0 <= j < bound ==> vars1[j] == vars2[j],
        serializable(vars1, v, bound),
    ensures
        serializable(vars2, v, bound),
    decreases bound, v,
{
    if v is VarRef {
        let r = v->VarRef_0.index;
        let target = vars1[r as int];
        lemma_serializable_frame(vars1, vars2, target, r as nat);
    } else if v is Ops {
        let ops = v->Ops_0.ops@;
        lemma_ops_stored_ok_frame(vars1, vars2, ops, bound);
    } else if v is Not {
        let inner = v->Not_0.value;
        lemma_serializable_frame(vars1, vars2, inner, bound);
    } else if v is And {
        let l = v->And_0.left;
        let r = v->And_0.right;
        lemma_serializable_frame(vars1, vars2, l, bound);
        lemma_serializable_frame(vars1, vars2, r, bound);
    } else if v is Or {
        let l = v->Or_0.left;
        let r = v->Or_0.right;
        lemma_serializable_frame(vars1, vars2, l, bound);
        lemma_serializable_frame(vars1, vars2, r, bound);
    } else if v is Xor {
        let l = v->Xor_0.left;
        let r = v->Xor_0.right;
        lemma_serializable_frame(vars1, vars2, l, bound);
        lemma_serializable_frame(vars1, vars2, r, bound);
    }
}

pub proof fn lemma_ops_stored_ok_frame(
    vars1: Seq<MirValue>,
    vars2: Seq<MirValue>,
    ops: Seq<MirOp>,
    bound: nat,
)
    requires
        bound <= vars1.len(),
        bound <= vars2.len(),
        forall|j: int| 0 <= j < bound ==> vars1[j] == vars2[j],
        ops_stored_ok(vars1, ops, bound),
    ensures
        ops_stored_ok(vars2, ops, bound),
    decreases bound, ops,
{
    if ops.len() > 0 {
        if ops[0] is SetBit {
            let cond = ops[0]->SetBit_cond;
            lemma_serializable_frame(vars1, vars2, cond, bound);
        } else if ops[0] is ResetBit {
            let cond = ops[0]->ResetBit_cond;
            lemma_serializable_frame(vars1, vars2, cond, bound);
        }
        lemma_ops_stored_ok_frame(vars1, vars2, ops.drop_first(), bound);
    }
}

pub proof fn lemma_stored_ok_frame(
    vars1: Seq<MirValue>,
    vars2: Seq<MirValue>,
    v: MirValue,
    bound: nat,
)
    requires
        bound <= vars1.len(),
        bound <= vars2.len(),
        forall|j: int| 0 <= j < bound ==> vars1[j] == vars2[j],
        stored_ok(vars1, v, bound),
    ensures
        stored_ok(vars2, v, bound),
    decreases bound, v,
{
    if v is Ops {
        let ops = v->Ops_0.ops@;
        lemma_ops_stored_ok_frame(vars1, vars2, ops, bound);
    } else if v is Not {
        let inner = v->Not_0.value;
        lemma_stored_ok_frame(vars1, vars2, inner, bound);
    } else if v is And {
        let l = v->And_0.left;
        let r = v->And_0.right;
        lemma_stored_ok_frame(vars1, vars2, l, bound);
        lemma_stored_ok_frame(vars1, vars2, r, bound);
    } else if v is Or {
        let l = v->Or_0.left;
        let r = v->Or_0.right;
        lemma_stored_ok_frame(vars1, vars2, l, bound);
        lemma_stored_ok_frame(vars1, vars2, r, bound);
    } else if v is Xor {
        let l = v->Xor_0.left;
        let r = v->Xor_0.right;
        lemma_stored_ok_frame(vars1, vars2, l, bound);
        lemma_stored_ok_frame(vars1, vars2, r, bound);
    }
}

/// A bit-readable value is serializable, given a well-stored variable list.
pub proof fn lemma_readable_serializable(vars: Seq<MirValue>, v: MirValue, bound: nat)
    requires
        vars_ok(vars),
        bound <= vars.len(),
        stored_ok(vars, v, bound),
        bit_readable(vars, v, bound),
    ensures
        serializable(vars, v, bound),
    decreases bound, v,
{
    if v is VarRef {
        let r = v->VarRef_0.index;
        let target = vars[r as int];
        assert(stored_ok(vars, target, r as nat));
        lemma_readable_serializable(vars, target, r as nat);
    } else if v is Not {
        let inner = v->Not_0.value;
        lemma_readable_serializable(vars, inner, bound);
    } else if v is And {
        let l = v->And_0.left;
        let r = v->And_0.right;
        lemma_readable_serializable(vars, l, bound);
        lemma_readable_serializable(vars, r, bound);
    } else if v is Or {
        let l = v->Or_0.left;
        let r = v->Or_0.right;
        lemma_readable_serializable(vars, l, bound);
        lemma_readable_serializable(vars, r, bound);
    } else if v is Xor {
        let l = v->Xor_0.left;
        let r = v->Xor_0.right;
        lemma_readable_serializable(vars, l, bound);
        lemma_readable_serializable(vars, r, bound);
    }
}

impl MirValue {
    pub fn is_unit(&self) -> (r: bool)
        ensures
            r == (*self matches MirValue::Unit),
    {
        matches!(self, MirValue::Unit)
    }

    /// Whether this value can be serialized into instructions that leave a
    /// single bit on the accumulator.
    pub fn is_bit_readable(&self, mir: &Mir) -> (r: bool)
        requires
            crate::mir::mir_wf(*mir),
            stored_ok(var_values(*mir), *self, mir.variables@.len() as nat),
        ensures
            r == bit_readable(var_values(*mir), *self, mir.variables@.len() as nat),
    {
        self.is_bit_readable_at(mir, Ghost(mir.variables@.len() as nat))
    }

    /// Readability of a value fit for slot bound `bound`.
    fn is_bit_readable_at(&self, mir: &Mir, Ghost(bound): Ghost<nat>) -> (r: bool)
        requires
            crate::mir::mir_wf(*mir),
            bound <= mir.variables@.len(),
            stored_ok(var_values(*mir), *self, bound),
        ensures
            r == bit_readable(var_values(*mir), *self, bound),
        decreases bound, *self,
    {
        match self {
            MirValue::Ops(_) => true,
            MirValue::Address(addr) => addr.is_bit_address(),
            MirValue::Unit => false,
            MirValue::Bool(_) => false,
            MirValue::Number(_) => false,
            MirValue::VarRef(var) => {
                let target = &mir.variables[var.index].value;
                proof {
                    assert(var_values(*mir)[var.index as int] == mir.variables@[var.index as int].value);
                }
                target.is_bit_readable_at(mir, Ghost(var.index as nat))
            },
            MirValue::Not(not) => not.value.is_bit_readable_at(mir, Ghost(bound)),
            MirValue::And(and) => {
                and.left.is_bit_readable_at(mir, Ghost(bound)) && and.right.is_bit_readable_at(
                    mir,
                    Ghost(bound),
                )
            },
            MirValue::Or(or) => {
                or.left.is_bit_readable_at(mir, Ghost(bound)) && or.right.is_bit_readable_at(
                    mir,
                    Ghost(bound),
                )
            },
            MirValue::Xor(xor) => {
                xor.left.is_bit_readable_at(mir, Ghost(bound)) && xor.right.is_bit_readable_at(
                    mir,
                    Ghost(bound),
                )
            },
        }
    }
}

} // verus!

verus! {

/// Each operation of a well-stored sequence carries a serializable condition.
pub proof fn lemma_ops_stored_ok_index(vars: Seq<MirValue>, ops: Seq<MirOp>, bound: nat, i: int)
    requires
        ops_stored_ok(vars, ops, bound),
        0 <= i < ops.len(),
    ensures
        ops[i] is SetBit ==> serializable(vars, ops[i]->SetBit_cond, bound),
        ops[i] is ResetBit ==> serializable(vars, ops[i]->ResetBit_cond, bound),
    decreases ops.len(),
{
    if i > 0 {
        lemma_ops_stored_ok_index(vars, ops.drop_first(), bound, i - 1);
    }
}

} // verus!

verus! {

/// The value a write through `v` ultimately lands on: the end of the
/// variable-reference chain.
pub open spec fn write_target(vars: Seq<MirValue>, v: MirValue, bound: nat) -> MirValue
    decreases bound, v,
{
    match v {
        MirValue::VarRef(r) => if r.index < bound {
            write_target(vars, vars[r.index as int], r.index as nat)
        } else {
            v
        },
        _ => v,
    }
}

/// A write to a binding succeeds exactly when the binding's value chain ends
/// on a physical output address and the written value reads as a bit.
pub open spec fn write_accepted(vars: Seq<MirValue>, target: MirValue, value: MirValue) -> bool {
    &&& target matches MirValue::Address(a)
    &&& a.atype == MirAddressType::PhysicalOutput1
    &&& bit_readable(vars, value, vars.len() as nat)
}

/// The reason a rejected write fails with: a non-output target has no write
/// handler; an output target rejects a value that does not read as a bit.
pub open spec fn write_reject_reason(vars: Seq<MirValue>, target: MirValue) -> crate::error::Reason {
    if target matches MirValue::Address(a) && a.atype == MirAddressType::PhysicalOutput1 {
        crate::error::Reason::ValueNotBitReadable
    } else {
        crate::error::Reason::NoWriteHandler
    }
}

impl MirAddress {
    /// Handler for a write whose target chain ended on this address.  Only a
    /// physical output accepts the write: the value is serialized, bracket-
    /// optimized, and recorded as an output action for this address.
    pub fn write(&self, mir: &mut Mir, quote: crate::util::Quote, _index: usize, value: MirValue)
        -> (r: Result<(), crate::error::Error>)
        requires
            crate::mir::mir_wf(*old(mir)),
            stored_ok(var_values(*old(mir)), value, old(mir).variables@.len() as nat),
        ensures
            crate::mir::mir_wf(*final(mir)),
            final(mir).source == old(mir).source,
            final(mir).variables == old(mir).variables,
            final(mir).allocator == old(mir).allocator,
            ({
                let vals = var_values(*old(mir));
                let n = old(mir).variables@.len() as nat;
                if write_accepted(vals, MirValue::Address(*self), value) {
                    &&& r is Ok
                    &&& final(mir).actions@.len() == old(mir).actions@.len() + 1
                    &&& final(mir).actions@.subrange(0, old(mir).actions@.len() as int) == old(
                        mir,
                    ).actions@
                    &&& (final(mir).actions@.last() matches crate::mir::MirAction::Output(oa)
                        && oa.address == *self && oa.instructions@ == crate::mir::optimizer::owseq(
                        vals,
                        value,
                        n,
                    ))
                } else {
                    &&& r == Err::<(), crate::error::Error>(
                        crate::error::Error {
                            quote,
                            reason: write_reject_reason(vals, MirValue::Address(*self)),
                        },
                    )
                    &&& final(mir).actions == old(mir).actions
                }
            }),
    {
        let ghost vals = var_values(*mir);
        let ghost n = mir.variables@.len() as nat;
        if !matches!(self.atype, MirAddressType::PhysicalOutput1) {
            return Err(crate::error::Error::new(quote, crate::error::Reason::NoWriteHandler));
        }
        if !value.is_bit_readable(mir) {
            return Err(crate::error::Error::new(quote, crate::error::Reason::ValueNotBitReadable));
        }
        proof {
            lemma_readable_serializable(vals, value, n);
            crate::mir::optimizer::lemma_opt_wseq(vals, value, n, crate::mir::optimizer::opt_init());
        }
        let mut writer = crate::mir::writer::MirInstructionWriter::default();
        writer.write_value(mir, &value);
        proof {
            assert(writer.instructions@ =~= crate::mir::writer::wseq(vals, value, n));
            assert(Seq::<crate::mir::MirInstruction>::empty() + crate::mir::optimizer::owseq(
                vals,
                value,
                n,
            ) =~= crate::mir::optimizer::owseq(vals, value, n));
        }
        crate::mir::optimizer::optimize(&mut writer);
        let ghost before = mir.actions@;
        mir.actions.push(
            crate::mir::MirAction::Output(
                crate::mir::MirOutputAction { address: *self, instructions: writer.instructions },
            ),
        );
        proof {
            assert(mir.actions@.subrange(0, before.len() as int) =~= before);
        }
        Ok(())
    }
}

impl MirValue {
    /// Handler for a write to the binding in slot `index`, dispatching on
    /// this value (the binding's current value): an output address records an
    /// output action, a variable reference forwards to the referenced slot,
    /// and everything else rejects the write.
    pub fn write(&self, mir: &mut Mir, quote: crate::util::Quote, index: usize, value: MirValue)
        -> (r: Result<(), crate::error::Error>)
        requires
            crate::mir::mir_wf(*old(mir)),
            stored_ok(var_values(*old(mir)), *self, old(mir).variables@.len() as nat),
            stored_ok(var_values(*old(mir)), value, old(mir).variables@.len() as nat),
        ensures
            crate::mir::mir_wf(*final(mir)),
            final(mir).source == old(mir).source,
            final(mir).variables == old(mir).variables,
            final(mir).allocator == old(mir).allocator,
            ({
                let vals = var_values(*old(mir));
                let n = old(mir).variables@.len() as nat;
                let target = write_target(vals, *self, n);
                if write_accepted(vals, target, value) {
                    &&& r is Ok
                    &&& final(mir).actions@.len() == old(mir).actions@.len() + 1
                    &&& final(mir).actions@.subrange(0, old(mir).actions@.len() as int) == old(
                        mir,
                    ).actions@
                    &&& (final(mir).actions@.last() matches crate::mir::MirAction::Output(oa)
                        && oa.address == target->Address_0 && oa.instructions@
                        == crate::mir::optimizer::owseq(vals, value, n))
                } else {
                    &&& r == Err::<(), crate::error::Error>(
                        crate::error::Error { quote, reason: write_reject_reason(vals, target) },
                    )
                    &&& final(mir).actions == old(mir).actions
                }
            }),
    {
        self.write_at(mir, quote, index, value, Ghost(mir.variables@.len() as nat))
    }

    /// The write handler on a value fit for slot bound `bound`.
    fn write_at(
        &self,
        mir: &mut Mir,
        quote: crate::util::Quote,
        index: usize,
        value: MirValue,
        Ghost(bound): Ghost<nat>,
    ) -> (r: Result<(), crate::error::Error>)
        requires
            crate::mir::mir_wf(*old(mir)),
            bound <= old(mir).variables@.len(),
            stored_ok(var_values(*old(mir)), *self, bound),
            stored_ok(var_values(*old(mir)), value, old(mir).variables@.len() as nat),
        ensures
            crate::mir::mir_wf(*final(mir)),
            final(mir).source == old(mir).source,
            final(mir).variables == old(mir).variables,
            final(mir).allocator == old(mir).allocator,
            ({
                let vals = var_values(*old(mir));
                let n = old(mir).variables@.len() as nat;
                let target = write_target(vals, *self, bound);
                if write_accepted(vals, target, value) {
                    &&& r is Ok
                    &&& final(mir).actions@.len() == old(mir).actions@.len() + 1
                    &&& final(mir).actions@.subrange(0, old(mir).actions@.len() as int) == old(
                        mir,
                    ).actions@
                    &&& (final(mir).actions@.last() matches crate::mir::MirAction::Output(oa)
                        && oa.address == target->Address_0 && oa.instructions@
                        == crate::mir::optimizer::owseq(vals, value, n))
                } else {
                    &&& r == Err::<(), crate::error::Error>(
                        crate::error::Error { quote, reason: write_reject_reason(vals, target) },
                    )
                    &&& final(mir).actions == old(mir).actions
                }
            }),
        decreases bound, *self,
    {
        match self {
            MirValue::Address(addr) => addr.write(mir, quote, index, value),
            MirValue::VarRef(var) => {
                let target = mir.variables[var.index].value.clone();
                proof {
                    assert(var_values(*mir)[var.index as int] == mir.variables@[
                        var.index as int
                    ].value);
                    assert(stored_ok(var_values(*mir), target, var.index as nat));
                }
                target.write_at(mir, quote, index, value, Ghost(var.index as nat))
            },
            _ => Err(crate::error::Error::new(quote, crate::error::Reason::NoWriteHandler)),
        }
    }
}

} // verus!
