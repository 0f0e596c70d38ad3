//! Serializes a lowered boolean value into a flat stack-machine instruction
//! sequence.
//!
//! The encoding is [`wseq`]: a bit address becomes a load-and-test, a
//! variable reference inlines its target's current value, an operation
//! sequence serializes each guarded latch write, and a binary node serializes
//! its left operand, then the bracketed right operand.

use vstd::prelude::*;

use crate::mir::ops::MirOp;
use crate::mir::value::{lemma_ops_stored_ok_index, ops_stored_ok, serializable, MirValue};
use crate::mir::{var_values, Mir, MirInstruction};

verus! {

broadcast use vstd::seq::group_seq_axioms;

/// The instruction sequence a value serializes to.  Brackets always wrap the
/// right-hand operand only: the accumulator is combined with the bracketed
/// group's result.
pub open spec fn wseq(vars: Seq<MirValue>, v: MirValue, bound: nat) -> Seq<MirInstruction>
    decreases bound, v,
{
    match v {
        MirValue::Address(a) => seq![MirInstruction::And { addr: a }],
        MirValue::VarRef(r) => if r.index < bound {
            wseq(vars, vars[r.index as int], r.index as nat)
        } else {
            Seq::empty()
        },
        MirValue::Ops(o) => wseq_ops(vars, o.ops@, bound),
        MirValue::Not(n) => wseq(vars, n.value, bound).push(MirInstruction::Not),
        MirValue::And(a) => wseq(vars, a.left, bound).push(MirInstruction::AndStart) + wseq(
            vars,
            a.right,
            bound,
        ).push(MirInstruction::End),
        MirValue::Or(a) => wseq(vars, a.left, bound).push(MirInstruction::OrStart) + wseq(
            vars,
            a.right,
            bound,
        ).push(MirInstruction::End),
        MirValue::Xor(a) => wseq(vars, a.left, bound).push(MirInstruction::XorStart) + wseq(
            vars,
            a.right,
            bound,
        ).push(MirInstruction::End),
        _ => Seq::empty(),
    }
}

pub open spec fn wseq_ops(vars: Seq<MirValue>, ops: Seq<MirOp>, bound: nat) -> Seq<
    MirInstruction,
>
    decreases bound, ops,
{
    if ops.len() == 0 {
        Seq::empty()
    } else {
        (match ops[0] {
            MirOp::SetBit { cond, addr } => wseq(vars, cond, bound).push(
                MirInstruction::SetBit { addr },
            ),
            MirOp::ResetBit { cond, addr } => wseq(vars, cond, bound).push(
                MirInstruction::ResetBit { addr },
            ),
            MirOp::And { addr } => seq![MirInstruction::And { addr }],
        }) + wseq_ops(vars, ops.drop_first(), bound)
    }
}

/// Accumulates the serialized instructions of the values written to it.
pub struct MirInstructionWriter {
    pub instructions: Vec<MirInstruction>,
}

impl Default for MirInstructionWriter {
    fn default() -> (r: MirInstructionWriter)
        ensures
            r.instructions@ =~= Seq::<MirInstruction>::empty(),
    {
        MirInstructionWriter { instructions: Vec::new() }
    }
}

impl MirInstructionWriter {
    /// Appends the serialization of `value` to the instruction list.
    pub fn write_value(&mut self, mir: &Mir, value: &MirValue)
        requires
            serializable(var_values(*mir), *value, mir.variables@.len() as nat),
        ensures
            final(self).instructions@ == old(self).instructions@ + wseq(
                var_values(*mir),
                *value,
                mir.variables@.len() as nat,
            ),
    {
        self.write_value_at(mir, value, Ghost(mir.variables@.len() as nat))
    }

    /// Appends the serialization of a value fit for slot bound `bound`.
    fn write_value_at(&mut self, mir: &Mir, value: &MirValue, Ghost(bound): Ghost<nat>)
        requires
            bound <= mir.variables@.len(),
            serializable(var_values(*mir), *value, bound),
        ensures
            final(self).instructions@ == old(self).instructions@ + wseq(
                var_values(*mir),
                *value,
                bound,
            ),
        decreases bound, *value,
    {
        let ghost vals = var_values(*mir);
        let ghost start = self.instructions@;
        match value {
            MirValue::Address(addr) => {
                self.instructions.push(MirInstruction::And { addr: *addr });
                proof {
                    assert(self.instructions@ =~= start + wseq(vals, *value, bound));
                }
            },
            MirValue::VarRef(var_ref) => {
                let target = &mir.variables[var_ref.index].value;
                proof {
                    assert(vals[var_ref.index as int] == mir.variables@[var_ref.index as int].value);
                }
                self.write_value_at(mir, target, Ghost(var_ref.index as nat));
            },
            MirValue::Ops(o) => {
                let ghost opsseq = o.ops@;
                let n = o.ops.len();
                proof {
                    assert(opsseq.subrange(0, n as int) =~= opsseq);
                }
                let mut i: usize = 0;
                while i < n
                    invariant
                        n == opsseq.len(),
                        0 <= i <= n,
                        opsseq == o.ops@,
                        *value is Ops && value->Ops_0 == *o,
                        vals == var_values(*mir),
                        bound <= mir.variables@.len(),
                        ops_stored_ok(vals, opsseq, bound),
                        start + wseq_ops(vals, opsseq, bound) == self.instructions@ + wseq_ops(
                            vals,
                            opsseq.subrange(i as int, n as int),
                            bound,
                        ),
                    decreases n - i,
                {
                    let ghost suffix = opsseq.subrange(i as int, n as int);
                    proof {
                        assert(suffix[0] == opsseq[i as int]);
                        assert(suffix.drop_first() =~= opsseq.subrange(i + 1 as int, n as int));
                        lemma_ops_stored_ok_index(vals, opsseq, bound, i as int);
                    }
                    let ghost mid = self.instructions@;
                    match &o.ops[i] {
                        MirOp::SetBit { cond, addr } => {
                            proof {
                                let vv = *value;
                                assert(decreases_to!(vv => vv->Ops_0));
                                assert(decreases_to!(vv->Ops_0 => vv->Ops_0.ops));
                                assert(decreases_to!(vv->Ops_0.ops => vv->Ops_0.ops@));
                                assert(decreases_to!(vv->Ops_0.ops@ => vv->Ops_0.ops@[i as int]));
                                assert(decreases_to!(vv->Ops_0.ops@[i as int] => vv->Ops_0.ops@[
                                    i as int
                                ]->SetBit_cond));
                                assert(*cond == vv->Ops_0.ops@[i as int]->SetBit_cond);
                                assert(decreases_to!(vv => *cond));
                            }
                            self.write_value_at(mir, cond, Ghost(bound));
                            self.instructions.push(MirInstruction::SetBit { addr: *addr });
                        },
                        MirOp::ResetBit { cond, addr } => {
                            proof {
                                let vv = *value;
                                assert(vv is Ops);
                                assert(vv->Ops_0.ops@ == opsseq);
                                assert(decreases_to!(vv => vv->Ops_0));
                                assert(decreases_to!(vv->Ops_0 => vv->Ops_0.ops));
                                assert(decreases_to!(vv->Ops_0.ops => vv->Ops_0.ops@));
                                assert(decreases_to!(vv->Ops_0.ops@ => vv->Ops_0.ops@[i as int]));
                                assert(decreases_to!(vv->Ops_0.ops@[i as int] => vv->Ops_0.ops@[
                                    i as int
                                ]->ResetBit_cond));
                                assert(*cond == vv->Ops_0.ops@[i as int]->ResetBit_cond);
                                assert(decreases_to!(vv => *cond));
                            }
                            self.write_value_at(mir, cond, Ghost(bound));
                            self.instructions.push(MirInstruction::ResetBit { addr: *addr });
                        },
                        MirOp::And { addr } => {
                            self.instructions.push(MirInstruction::And { addr: *addr });
                        },
                    }
                    proof {
                        assert(start + wseq_ops(vals, opsseq, bound) == self.instructions@
                            + wseq_ops(vals, opsseq.subrange(i + 1 as int, n as int), bound)) by {
                            assert(wseq_ops(vals, suffix, bound) == (match suffix[0] {
                                MirOp::SetBit { cond, addr } => wseq(vals, cond, bound).push(
                                    MirInstruction::SetBit { addr },
                                ),
                                MirOp::ResetBit { cond, addr } => wseq(vals, cond, bound).push(
                                    MirInstruction::ResetBit { addr },
                                ),
                                MirOp::And { addr } => seq![MirInstruction::And { addr }],
                            }) + wseq_ops(vals, suffix.drop_first(), bound));
                            assert((mid + wseq_ops(vals, suffix, bound)).subrange(
                                0,
                                self.instructions@.len() as int,
                            ) =~= self.instructions@);
                            assert(mid + wseq_ops(vals, suffix, bound) =~= self.instructions@
                                + wseq_ops(vals, suffix.drop_first(), bound));
                        }
                    }
                    i = i + 1;
                }
                proof {
                    assert(wseq_ops(vals, opsseq.subrange(n as int, n as int), bound)
                        =~= Seq::<MirInstruction>::empty());
                    assert(opsseq.subrange(n as int, n as int) =~= Seq::<MirOp>::empty());
                    assert(self.instructions@ =~= self.instructions@ + Seq::<
                        MirInstruction,
                    >::empty());
                    assert(self.instructions@ == start + wseq(vals, *value, bound));
                }
            },
            MirValue::Not(not) => {
                self.write_value_at(mir, &not.value, Ghost(bound));
                self.instructions.push(MirInstruction::Not);
                proof {
                    assert(self.instructions@ =~= start + wseq(vals, *value, bound));
                }
            },
            MirValue::And(and) => {
                self.write_value_at(mir, &and.left, Ghost(bound));
                self.instructions.push(MirInstruction::AndStart);
                self.write_value_at(mir, &and.right, Ghost(bound));
                self.instructions.push(MirInstruction::End);
                proof {
                    assert(self.instructions@ =~= start + wseq(vals, *value, bound));
                }
            },
            MirValue::Or(or) => {
                self.write_value_at(mir, &or.left, Ghost(bound));
                self.instructions.push(MirInstruction::OrStart);
                self.write_value_at(mir, &or.right, Ghost(bound));
                self.instructions.push(MirInstruction::End);
                proof {
                    assert(self.instructions@ =~= start + wseq(vals, *value, bound));
                }
            },
            MirValue::Xor(xor) => {
                self.write_value_at(mir, &xor.left, Ghost(bound));
                self.instructions.push(MirInstruction::XorStart);
                self.write_value_at(mir, &xor.right, Ghost(bound));
                self.instructions.push(MirInstruction::End);
                proof {
                    assert(self.instructions@ =~= start + wseq(vals, *value, bound));
                }
            },
            _ => {
                proof {
                    assert(false);
                }
            },
        }
    }
}

} // verus!
