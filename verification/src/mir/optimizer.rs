//! The peephole bracket optimizer: a single left-to-right pass that collapses
//! every bracketed group holding exactly one plain bit test into the combined
//! instruction, innermost groups first.
//!
//! The pass is specified as a fold ([`opt_run`]) over the instruction list
//! with a stack of open-bracket positions.  Its result on everything the
//! instruction writer emits is characterized by [`owseq`], and running the
//! pass again on such a result changes nothing ([`lemma_optimizer_idempotent`]).

use vstd::prelude::*;

use crate::mir::ops::MirOp;
use crate::mir::value::{ops_stored_ok, serializable, MirValue};
use crate::mir::writer::{wseq, wseq_ops, MirInstructionWriter};
use crate::mir::{addr_spec, has_bracket_spec, unbracket_spec, MirInstruction};

verus! {

broadcast use vstd::seq::group_seq_axioms;

/// A plain bit test: the only instruction a bracket collapses over.
pub open spec fn is_and_instr(i: MirInstruction) -> bool {
    i is And
}

/// The optimizer's scan state: the output built so far, the positions of the
/// still-open bracket markers within it, and whether the input was
/// well-formed so far.
#[verifier::ext_equal]
pub struct OptState {
    pub out: Seq<MirInstruction>,
    pub stack: Seq<int>,
    pub ok: bool,
}

pub open spec fn opt_init() -> OptState {
    OptState { out: Seq::empty(), stack: Seq::empty(), ok: true }
}

/// One scan step.  A bracket opener is pushed and remembered; a closer
/// inspects the region built since its opener: an empty region or an
/// unmatched closer marks the input malformed, a single plain bit test
/// collapses into the opener's combined form, and anything else keeps the
/// bracket.  Dummy slots are dropped; every other instruction is copied.
pub open spec fn opt_step(st: OptState, ins: MirInstruction) -> OptState {
    if !st.ok {
        st
    } else if has_bracket_spec(ins) {
        OptState { out: st.out.push(ins), stack: st.stack.push(st.out.len() as int), ok: true }
    } else if ins is End {
        if st.stack.len() == 0 {
            OptState { out: st.out, stack: st.stack, ok: false }
        } else {
            let s = st.stack.last();
            if !(0 <= s && s + 1 < st.out.len()) {
                OptState { out: st.out, stack: st.stack, ok: false }
            } else if st.out.len() - s - 1 == 1 && is_and_instr(st.out.last()) {
                OptState {
                    out: st.out.subrange(0, s).push(
                        unbracket_spec(st.out[s], addr_spec(st.out.last())),
                    ),
                    stack: st.stack.drop_last(),
                    ok: true,
                }
            } else {
                OptState {
                    out: st.out.push(MirInstruction::End),
                    stack: st.stack.drop_last(),
                    ok: true,
                }
            }
        }
    } else if ins is Dummy {
        st
    } else {
        OptState { out: st.out.push(ins), stack: st.stack, ok: true }
    }
}

/// The scan folded over a whole input.
pub open spec fn opt_run(input: Seq<MirInstruction>, st: OptState) -> OptState
    decreases input.len(),
{
    if input.len() == 0 {
        st
    } else {
        opt_step(opt_run(input.drop_last(), st), input.last())
    }
}

/// A whole input is acceptable when the scan succeeds with no bracket left
/// open.
pub open spec fn opt_ok(input: Seq<MirInstruction>) -> bool {
    opt_run(input, opt_init()).ok && opt_run(input, opt_init()).stack.len() == 0
}

/// The optimized instruction list of an acceptable input.
pub open spec fn opt_result(input: Seq<MirInstruction>) -> Seq<MirInstruction> {
    opt_run(input, opt_init()).out
}

pub proof fn lemma_opt_run_concat(a: Seq<MirInstruction>, b: Seq<MirInstruction>, st: OptState)
    ensures
        opt_run(a + b, st) == opt_run(b, opt_run(a, st)),
    decreases b.len(),
{
    if b.len() == 0 {
        assert(a + b =~= a);
    } else {
        assert((a + b).drop_last() =~= a + b.drop_last());
        lemma_opt_run_concat(a, b.drop_last(), st);
    }
}

/// Once the scan has rejected the input, nothing changes any more.
pub proof fn lemma_opt_fail_stable(input: Seq<MirInstruction>, st: OptState)
    requires
        !st.ok,
    ensures
        opt_run(input, st) == st,
    decreases input.len(),
{
    if input.len() > 0 {
        lemma_opt_fail_stable(input.drop_last(), st);
    }
}


pub proof fn lemma_opt_run_empty(st: OptState)
    ensures
        opt_run(Seq::empty(), st) == st,
{
}

pub proof fn lemma_opt_run_push(z: Seq<MirInstruction>, x: MirInstruction, st: OptState)
    ensures
        opt_run(z.push(x), st) == opt_step(opt_run(z, st), x),
{
    assert(z.push(x).drop_last() =~= z);
    assert(z.push(x).last() == x);
}

pub proof fn lemma_opt_run_single(x: MirInstruction, st: OptState)
    ensures
        opt_run(seq![x], st) == opt_step(st, x),
{
    assert(seq![x] =~= Seq::empty().push(x));
    lemma_opt_run_push(Seq::empty(), x, st);
    lemma_opt_run_empty(st);
}

/// The optimized form of a serialized value: like the serialization itself,
/// but with every right-hand operand that is a single plain bit test folded
/// into its bracket opener.
pub open spec fn bracketed(start: MirInstruction, inner: Seq<MirInstruction>) -> Seq<
    MirInstruction,
> {
    if inner.len() == 1 && is_and_instr(inner[0]) {
        seq![unbracket_spec(start, addr_spec(inner[0]))]
    } else {
        seq![start] + inner + seq![MirInstruction::End]
    }
}

pub open spec fn owseq(vars: Seq<MirValue>, v: MirValue, bound: nat) -> Seq<MirInstruction>
    decreases bound, v,
{
    match v {
        MirValue::Address(a) => seq![MirInstruction::And { addr: a }],
        MirValue::VarRef(r) => if r.index < bound {
            owseq(vars, vars[r.index as int], r.index as nat)
        } else {
            Seq::empty()
        },
        MirValue::Ops(o) => owseq_ops(vars, o.ops@, bound),
        MirValue::Not(n) => owseq(vars, n.value, bound).push(MirInstruction::Not),
        MirValue::And(a) => owseq(vars, a.left, bound) + bracketed(
            MirInstruction::AndStart,
            owseq(vars, a.right, bound),
        ),
        MirValue::Or(a) => owseq(vars, a.left, bound) + bracketed(
            MirInstruction::OrStart,
            owseq(vars, a.right, bound),
        ),
        MirValue::Xor(a) => owseq(vars, a.left, bound) + bracketed(
            MirInstruction::XorStart,
            owseq(vars, a.right, bound),
        ),
        _ => Seq::empty(),
    }
}

pub open spec fn owseq_ops(vars: Seq<MirValue>, ops: Seq<MirOp>, bound: nat) -> Seq<
    MirInstruction,
>
    decreases bound, ops,
{
    if ops.len() == 0 {
        Seq::empty()
    } else {
        (match ops[0] {
            MirOp::SetBit { cond, addr } => owseq(vars, cond, bound).push(
                MirInstruction::SetBit { addr },
            ),
            MirOp::ResetBit { cond, addr } => owseq(vars, cond, bound).push(
                MirInstruction::ResetBit { addr },
            ),
            MirOp::And { addr } => seq![MirInstruction::And { addr }],
        }) + owseq_ops(vars, ops.drop_first(), bound)
    }
}

/// A serializable value optimizes to at least one instruction.
pub proof fn lemma_owseq_len(vars: Seq<MirValue>, v: MirValue, bound: nat)
    requires
        serializable(vars, v, bound),
    ensures
        owseq(vars, v, bound).len() >= 1,
    decreases bound, v,
{
    if v is VarRef {
        let target = vars[v->VarRef_0.index as int];
        lemma_owseq_len(vars, target, v->VarRef_0.index as nat);
    } else if v is Ops {
        let ops = v->Ops_0.ops@;
        lemma_owseq_ops_len(vars, ops, bound);
    }
}

pub proof fn lemma_owseq_ops_len(vars: Seq<MirValue>, ops: Seq<MirOp>, bound: nat)
    requires
        ops_stored_ok(vars, ops, bound),
        ops.len() >= 1,
    ensures
        owseq_ops(vars, ops, bound).len() >= 1,
{
    assert(owseq_ops(vars, ops, bound).len() >= (match ops[0] {
        MirOp::SetBit { cond, addr } => owseq(vars, cond, bound).push(
            MirInstruction::SetBit { addr },
        ),
        MirOp::ResetBit { cond, addr } => owseq(vars, cond, bound).push(
            MirInstruction::ResetBit { addr },
        ),
        MirOp::And { addr } => seq![MirInstruction::And { addr }],
    }).len());
}


/// The guard condition of a latch operation.
pub open spec fn op_cond(op: MirOp) -> MirValue {
    if op is SetBit {
        op->SetBit_cond
    } else if op is ResetBit {
        op->ResetBit_cond
    } else {
        MirValue::Unit
    }
}

/// The left operand of a binary boolean node.
pub open spec fn bin_left(v: MirValue) -> MirValue {
    if v is And {
        v->And_0.left
    } else if v is Or {
        v->Or_0.left
    } else if v is Xor {
        v->Xor_0.left
    } else {
        MirValue::Unit
    }
}

/// The right operand of a binary boolean node.
pub open spec fn bin_right(v: MirValue) -> MirValue {
    if v is And {
        v->And_0.right
    } else if v is Or {
        v->Or_0.right
    } else if v is Xor {
        v->Xor_0.right
    } else {
        MirValue::Unit
    }
}

/// The bracket opener a binary boolean node serializes its right operand
/// under.
pub open spec fn bin_marker(v: MirValue) -> MirInstruction {
    if v is And {
        MirInstruction::AndStart
    } else if v is Or {
        MirInstruction::OrStart
    } else {
        MirInstruction::XorStart
    }
}

/// Scanning the serialization of a serializable value from any sound state
/// succeeds, leaves the bracket stack as it was, and appends exactly the
/// value's optimized form to the output.
#[verifier::rlimit(60)]
pub proof fn lemma_opt_wseq(vars: Seq<MirValue>, v: MirValue, bound: nat, st: OptState)
    requires
        serializable(vars, v, bound),
        bound <= vars.len(),
        st.ok,
    ensures
        opt_run(wseq(vars, v, bound), st) == (OptState {
            out: st.out + owseq(vars, v, bound),
            stack: st.stack,
            ok: true,
        }),
    decreases bound, v,
{
    let w = wseq(vars, v, bound);
    let o = owseq(vars, v, bound);
    let target = OptState { out: st.out + o, stack: st.stack, ok: true };
    if v is Address {
        assert(w == seq![MirInstruction::And { addr: v->Address_0 }]);
        lemma_opt_run_single(MirInstruction::And { addr: v->Address_0 }, st);
        assert(opt_run(w, st) =~= target);
    } else if v is VarRef {
        let tv = vars[v->VarRef_0.index as int];
        lemma_opt_wseq(vars, tv, v->VarRef_0.index as nat, st);
    } else if v is Ops {
        let ops = v->Ops_0.ops@;
        lemma_opt_wseq_ops(vars, ops, bound, st);
    } else if v is Not {
        let inner = v->Not_0.value;
        lemma_opt_wseq(vars, inner, bound, st);
        let st1 = opt_run(wseq(vars, inner, bound), st);
        assert(w == wseq(vars, inner, bound).push(MirInstruction::Not));
        lemma_opt_run_push(wseq(vars, inner, bound), MirInstruction::Not, st);
        assert(opt_run(w, st) == opt_step(st1, MirInstruction::Not));
        assert(opt_run(w, st) =~= target);
    } else if v is And || v is Or || v is Xor {
        let l = bin_left(v);
        let r = bin_right(v);
        let marker = bin_marker(v);
        let wl = wseq(vars, l, bound);
        let wr = wseq(vars, r, bound);
        let ol = owseq(vars, l, bound);
        let or = owseq(vars, r, bound);
        assert(w == wl.push(marker) + wr.push(MirInstruction::End));
        lemma_opt_wseq(vars, l, bound, st);
        let st1 = opt_run(wl, st);
        assert(st1 == OptState { out: st.out + ol, stack: st.stack, ok: true });
        // the opening marker
        lemma_opt_run_push(wl, marker, st);
        let st2 = opt_step(st1, marker);
        assert(opt_run(wl.push(marker), st) == st2);
        let p = st1.out.len() as int;
        assert(st2 == OptState { out: st1.out.push(marker), stack: st.stack.push(p), ok: true });
        // the bracketed right operand
        lemma_opt_wseq(vars, r, bound, st2);
        let st3 = opt_run(wr, st2);
        assert(st3 == OptState { out: st2.out + or, stack: st2.stack, ok: true });
        assert(w =~= (wl.push(marker) + wr).push(MirInstruction::End));
        lemma_opt_run_concat(wl.push(marker), wr, st);
        assert(opt_run(wl.push(marker) + wr, st) == st3);
        lemma_opt_run_push(wl.push(marker) + wr, MirInstruction::End, st);
        let st4 = opt_step(st3, MirInstruction::End);
        assert(opt_run(w, st) == st4);
        // the closing step sees exactly the optimized right operand
        lemma_owseq_len(vars, r, bound);
        assert(st3.stack.last() == p);
        assert(st3.out.len() - p - 1 == or.len());
        assert(st3.out.subrange(0, p) =~= st1.out);
        assert(st3.out[p] == marker);
        assert(st3.stack.drop_last() =~= st.stack);
        if or.len() == 1 && is_and_instr(or[0]) {
            assert(st3.out.last() == or[0]);
            assert(st4.out =~= st1.out.push(unbracket_spec(marker, addr_spec(or[0]))));
            assert(o =~= ol + bracketed(marker, or));
            assert(bracketed(marker, or) == seq![unbracket_spec(marker, addr_spec(or[0]))]);
            assert(st4.out =~= st.out + o);
            assert(st4 =~= target);
        } else {
            assert(st3.out.len() - p - 1 != 1 || !is_and_instr(st3.out.last())) by {
                if or.len() == 1 {
                    assert(st3.out.last() == or[0]);
                }
            }
            assert(st4.out =~= st3.out.push(MirInstruction::End));
            assert(st4.out =~= st.out + (ol + (seq![marker] + or + seq![MirInstruction::End])));
            assert(o =~= ol + (seq![marker] + or + seq![MirInstruction::End]));
            assert(st4 =~= target);
        }
    } else {
        assert(false);
    }
}

#[verifier::rlimit(60)]
pub proof fn lemma_opt_wseq_ops(vars: Seq<MirValue>, ops: Seq<MirOp>, bound: nat, st: OptState)
    requires
        ops_stored_ok(vars, ops, bound),
        bound <= vars.len(),
        st.ok,
    ensures
        opt_run(wseq_ops(vars, ops, bound), st) == (OptState {
            out: st.out + owseq_ops(vars, ops, bound),
            stack: st.stack,
            ok: true,
        }),
    decreases bound, ops,
{
    let w = wseq_ops(vars, ops, bound);
    let o = owseq_ops(vars, ops, bound);
    let target = OptState { out: st.out + o, stack: st.stack, ok: true };
    if ops.len() == 0 {
        assert(w =~= Seq::<MirInstruction>::empty());
        assert(opt_run(w, st) == st);
        assert(st =~= target);
    } else {
        let rest = ops.drop_first();
        if ops[0] is And {
            let head = seq![MirInstruction::And { addr: ops[0]->And_addr }];
            assert(w == head + wseq_ops(vars, rest, bound));
            lemma_opt_run_single(MirInstruction::And { addr: ops[0]->And_addr }, st);
            let st1 = opt_step(st, MirInstruction::And { addr: ops[0]->And_addr });
            assert(opt_run(head, st) == st1);
            lemma_opt_run_concat(head, wseq_ops(vars, rest, bound), st);
            lemma_opt_wseq_ops(vars, rest, bound, st1);
            assert(opt_run(w, st).out =~= target.out);
            assert(opt_run(w, st) =~= target);
        } else {
            let cond = op_cond(ops[0]);
            let mark = if ops[0] is SetBit {
                MirInstruction::SetBit { addr: ops[0]->SetBit_addr }
            } else {
                MirInstruction::ResetBit { addr: ops[0]->ResetBit_addr }
            };
            let head = wseq(vars, cond, bound).push(mark);
            assert(w == head + wseq_ops(vars, rest, bound));
            lemma_opt_wseq(vars, cond, bound, st);
            let st1 = opt_run(wseq(vars, cond, bound), st);
            lemma_opt_run_push(wseq(vars, cond, bound), mark, st);
            let st2 = opt_step(st1, mark);
            assert(opt_run(head, st) == st2);
            assert(st2.out =~= st.out + owseq(vars, cond, bound).push(mark));
            lemma_opt_run_concat(head, wseq_ops(vars, rest, bound), st);
            lemma_opt_wseq_ops(vars, rest, bound, st2);
            assert(o == owseq(vars, cond, bound).push(mark) + owseq_ops(vars, rest, bound));
            assert(opt_run(w, st).out =~= target.out);
            assert(opt_run(w, st) =~= target);
        }
    }
}

/// Scanning an already-optimized serialization changes nothing: every
/// surviving bracket region is too large or not a plain bit test, so it is
/// copied as it stands.
#[verifier::rlimit(60)]
pub proof fn lemma_opt_owseq(vars: Seq<MirValue>, v: MirValue, bound: nat, st: OptState)
    requires
        serializable(vars, v, bound),
        bound <= vars.len(),
        st.ok,
    ensures
        opt_run(owseq(vars, v, bound), st) == (OptState {
            out: st.out + owseq(vars, v, bound),
            stack: st.stack,
            ok: true,
        }),
    decreases bound, v,
{
    let o = owseq(vars, v, bound);
    let target = OptState { out: st.out + o, stack: st.stack, ok: true };
    if v is Address {
        assert(o == seq![MirInstruction::And { addr: v->Address_0 }]);
        lemma_opt_run_single(MirInstruction::And { addr: v->Address_0 }, st);
        assert(opt_run(o, st) =~= target);
    } else if v is VarRef {
        let tv = vars[v->VarRef_0.index as int];
        lemma_opt_owseq(vars, tv, v->VarRef_0.index as nat, st);
    } else if v is Ops {
        let ops = v->Ops_0.ops@;
        lemma_opt_owseq_ops(vars, ops, bound, st);
    } else if v is Not {
        let inner = v->Not_0.value;
        lemma_opt_owseq(vars, inner, bound, st);
        let st1 = opt_run(owseq(vars, inner, bound), st);
        assert(o == owseq(vars, inner, bound).push(MirInstruction::Not));
        lemma_opt_run_push(owseq(vars, inner, bound), MirInstruction::Not, st);
        assert(opt_run(o, st) == opt_step(st1, MirInstruction::Not));
        assert(opt_run(o, st) =~= target);
    } else if v is And || v is Or || v is Xor {
        let l = bin_left(v);
        let r = bin_right(v);
        let marker = bin_marker(v);
        let ol = owseq(vars, l, bound);
        let or = owseq(vars, r, bound);
        assert(o == ol + bracketed(marker, or));
        lemma_opt_owseq(vars, l, bound, st);
        let st1 = opt_run(ol, st);
        assert(st1 == OptState { out: st.out + ol, stack: st.stack, ok: true });
        lemma_owseq_len(vars, r, bound);
        if or.len() == 1 && is_and_instr(or[0]) {
            // already collapsed into one ordinary combined instruction
            let c = unbracket_spec(marker, addr_spec(or[0]));
            assert(bracketed(marker, or) == seq![c]);
            assert(o =~= ol.push(c));
            lemma_opt_run_push(ol, c, st);
            let st2 = opt_step(st1, c);
            assert(opt_run(o, st) == st2);
            assert(!has_bracket_spec(c) && !(c is End) && !(c is Dummy));
            assert(st2.out =~= st.out + o);
            assert(opt_run(o, st) =~= target);
        } else {
            // the bracket stays; its region is not a single plain bit test
            assert(bracketed(marker, or) == seq![marker] + or + seq![MirInstruction::End]);
            lemma_opt_run_push(ol, marker, st);
            let st2 = opt_step(st1, marker);
            assert(opt_run(ol.push(marker), st) == st2);
            let p = st1.out.len() as int;
            assert(st2 == OptState {
                out: st1.out.push(marker),
                stack: st.stack.push(p),
                ok: true,
            });
            lemma_opt_owseq(vars, r, bound, st2);
            let st3 = opt_run(or, st2);
            lemma_opt_run_concat(ol.push(marker), or, st);
            assert(opt_run(ol.push(marker) + or, st) == st3);
            assert(o =~= (ol.push(marker) + or).push(MirInstruction::End));
            lemma_opt_run_push(ol.push(marker) + or, MirInstruction::End, st);
            let st4 = opt_step(st3, MirInstruction::End);
            assert(opt_run(o, st) == st4);
            assert(st3.stack.last() == p);
            assert(st3.out.len() - p - 1 == or.len());
            assert(st3.stack.drop_last() =~= st.stack);
            assert(st3.out.len() - p - 1 != 1 || !is_and_instr(st3.out.last())) by {
                if or.len() == 1 {
                    assert(st3.out.last() == or[0]);
                }
            }
            assert(st4.out =~= st3.out.push(MirInstruction::End));
            assert(st4.out =~= st.out + o);
            assert(st4 =~= target);
        }
    } else {
        assert(false);
    }
}

#[verifier::rlimit(60)]
pub proof fn lemma_opt_owseq_ops(vars: Seq<MirValue>, ops: Seq<MirOp>, bound: nat, st: OptState)
    requires
        ops_stored_ok(vars, ops, bound),
        bound <= vars.len(),
        st.ok,
    ensures
        opt_run(owseq_ops(vars, ops, bound), st) == (OptState {
            out: st.out + owseq_ops(vars, ops, bound),
            stack: st.stack,
            ok: true,
        }),
    decreases bound, ops,
{
    let o = owseq_ops(vars, ops, bound);
    let target = OptState { out: st.out + o, stack: st.stack, ok: true };
    if ops.len() == 0 {
        assert(o =~= Seq::<MirInstruction>::empty());
        assert(opt_run(o, st) == st);
        assert(st =~= target);
    } else {
        let rest = ops.drop_first();
        if ops[0] is And {
            let head = seq![MirInstruction::And { addr: ops[0]->And_addr }];
            assert(o == head + owseq_ops(vars, rest, bound));
            lemma_opt_run_single(MirInstruction::And { addr: ops[0]->And_addr }, st);
            let st1 = opt_step(st, MirInstruction::And { addr: ops[0]->And_addr });
            assert(opt_run(head, st) == st1);
            lemma_opt_run_concat(head, owseq_ops(vars, rest, bound), st);
            lemma_opt_owseq_ops(vars, rest, bound, st1);
            assert(opt_run(o, st).out =~= target.out);
            assert(opt_run(o, st) =~= target);
        } else {
            let cond = op_cond(ops[0]);
            let mark = if ops[0] is SetBit {
                MirInstruction::SetBit { addr: ops[0]->SetBit_addr }
            } else {
                MirInstruction::ResetBit { addr: ops[0]->ResetBit_addr }
            };
            let head = owseq(vars, cond, bound).push(mark);
            assert(o == head + owseq_ops(vars, rest, bound));
            lemma_opt_owseq(vars, cond, bound, st);
            let st1 = opt_run(owseq(vars, cond, bound), st);
            lemma_opt_run_push(owseq(vars, cond, bound), mark, st);
            let st2 = opt_step(st1, mark);
            assert(opt_run(head, st) == st2);
            assert(st2.out =~= st.out + head);
            lemma_opt_run_concat(head, owseq_ops(vars, rest, bound), st);
            lemma_opt_owseq_ops(vars, rest, bound, st2);
            assert(opt_run(o, st).out =~= target.out);
            assert(opt_run(o, st) =~= target);
        }
    }
}

/// Law: optimizing is idempotent.  Every instruction list the writer emits
/// for a serializable value is accepted by the optimizer and collapses to its
/// optimized form, and running the optimizer on an already-optimized list
/// accepts it and returns it unchanged.
pub proof fn lemma_optimizer_idempotent(vars: Seq<MirValue>, v: MirValue, bound: nat)
    requires
        serializable(vars, v, bound),
        bound <= vars.len(),
    ensures
        opt_ok(wseq(vars, v, bound)),
        opt_result(wseq(vars, v, bound)) == owseq(vars, v, bound),
        opt_ok(owseq(vars, v, bound)),
        opt_result(owseq(vars, v, bound)) == owseq(vars, v, bound),
{
    lemma_opt_wseq(vars, v, bound, opt_init());
    lemma_opt_owseq(vars, v, bound, opt_init());
    assert(Seq::<MirInstruction>::empty() + owseq(vars, v, bound) =~= owseq(vars, v, bound));
}

} // verus!

verus! {

/// Soundness of a scan state: every remembered opener position lies in the
/// output, names a bracket opener, and the positions increase strictly.
pub open spec fn stack_wf(st: OptState) -> bool {
    &&& forall|k: int|
        0 <= k < st.stack.len() ==> 0 <= (#[trigger] st.stack[k]) < st.out.len()
            && has_bracket_spec(st.out[st.stack[k]])
    &&& forall|k1: int, k2: int|
        #![trigger st.stack[k1], st.stack[k2]]
        0 <= k1 < k2 < st.stack.len() ==> st.stack[k1] < st.stack[k2]
}

pub proof fn lemma_opt_step_stack_wf(st: OptState, ins: MirInstruction)
    requires
        stack_wf(st),
    ensures
        stack_wf(opt_step(st, ins)),
{
    let st2 = opt_step(st, ins);
    if st.ok && !has_bracket_spec(ins) && ins is End && st.stack.len() > 0 {
        let s = st.stack.last();
        if 0 <= s && s + 1 < st.out.len() && st.out.len() - s - 1 == 1 && is_and_instr(
            st.out.last(),
        ) {
            assert forall|k: int| 0 <= k < st2.stack.len() implies 0 <= (#[trigger] st2.stack[k])
                < st2.out.len() && has_bracket_spec(st2.out[st2.stack[k]]) by {
                assert(st2.stack[k] == st.stack[k]);
                assert(st.stack[k] < s);
                assert(st2.out[st.stack[k]] == st.out[st.stack[k]]);
            }
        }
    }
}

/// Rewrites the instruction list in place: every bracketed group that holds
/// exactly one plain bit test becomes the combined instruction, and dummy
/// slots are dropped.  The input must be a well-bracketed stream, as the
/// writer always produces ([`lemma_opt_wseq`]).
pub fn optimize(writer: &mut MirInstructionWriter)
    requires
        opt_ok(old(writer).instructions@),
    ensures
        final(writer).instructions@ == opt_result(old(writer).instructions@),
{
    let ghost input = writer.instructions@;
    let n = writer.instructions.len();
    let mut out: Vec<MirInstruction> = Vec::new();
    let mut stack: Vec<usize> = Vec::new();
    let mut i: usize = 0;
    proof {
        assert(input.subrange(0, 0) =~= Seq::<MirInstruction>::empty());
        lemma_opt_run_empty(opt_init());
    }
    while i < n
        invariant
            n == input.len(),
            input == writer.instructions@,
            0 <= i <= n,
            ({
                let st = opt_run(input.subrange(0, i as int), opt_init());
                &&& st.ok
                &&& st.out == out@
                &&& stack_wf(st)
                &&& stack@.len() == st.stack.len()
                &&& forall|k: int| 0 <= k < stack@.len() ==> stack@[k] as int == st.stack[k]
            }),
            opt_ok(input),
        decreases n - i,
    {
        let ghost st = opt_run(input.subrange(0, i as int), opt_init());
        let ghost st2 = opt_step(st, input[i as int]);
        proof {
            assert(input.subrange(0, i + 1 as int).drop_last() =~= input.subrange(0, i as int));
            assert(input.subrange(0, i + 1 as int).last() == input[i as int]);
            assert(opt_run(input.subrange(0, i + 1 as int), opt_init()) == st2);
            lemma_opt_step_stack_wf(st, input[i as int]);
            if !st2.ok {
                lemma_opt_run_concat(
                    input.subrange(0, i + 1 as int),
                    input.subrange(i + 1 as int, n as int),
                    opt_init(),
                );
                assert(input.subrange(0, i + 1 as int) + input.subrange(i + 1 as int, n as int)
                    =~= input);
                lemma_opt_fail_stable(input.subrange(i + 1 as int, n as int), st2);
                assert(false);
            }
        }
        let ins = writer.instructions[i];
        if ins.has_bracket() {
            stack.push(out.len());
            out.push(ins);
        } else if ins.is_end() {
            proof {
                if st.stack.len() == 0 {
                    assert(!st2.ok);
                }
            }
            let s = match stack.pop() {
                Some(x) => x,
                None => {
                    proof {
                        assert(false);
                    }
                    0
                },
            };
            proof {
                assert(s as int == st.stack.last());
                if !(s + 1 < out.len()) {
                    assert(!st2.ok);
                }
            }
            let rlen = out.len() - s - 1;
            if rlen == 1 {
                let single = out[out.len() - 1];
                if matches!(single, MirInstruction::And { .. }) {
                    let marker = out[s];
                    out.pop();
                    out.pop();
                    proof {
                        assert(out@ =~= st.out.subrange(0, s as int));
                    }
                    out.push(marker.unbracket(single.addr()));
                } else {
                    out.push(MirInstruction::End);
                }
            } else {
                out.push(MirInstruction::End);
            }
        } else if ins.is_dummy() {
        } else {
            out.push(ins);
        }
        proof {
            assert(st2.out =~= out@);
            assert forall|k: int| 0 <= k < stack@.len() implies stack@[k] as int == st2.stack[k]
                by {
            }
        }
        i = i + 1;
    }
    proof {
        assert(input.subrange(0, n as int) =~= input);
    }
    writer.instructions = out;
}

} // verus!
