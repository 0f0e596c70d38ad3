//! Lowers the parsed program into the mid-level representation: resolves
//! names, classifies address prefixes, expands builtin calls, and serializes
//! every value written to an output.

use vstd::prelude::*;

use crate::error::{Error, Reason};
use crate::hir::{
    hir_args_wf, hir_value_wf, Hir, HirCall, HirCallStatement, HirLetStatement, HirStatement,
    HirValue, HirValueType, HirWriteStatement,
};
use crate::mir::builtin::{builtin_kind, builtin_lookup, call_builtin, BuiltinKind};
use crate::mir::optimizer::{lemma_opt_wseq, opt_init, optimize, owseq};
use crate::mir::value::{
    lemma_readable_serializable, lemma_stored_ok_frame, lemma_stored_ok_widen, stored_ok,
    MirAddress, MirAddressType, MirAnd, MirBool, MirNot, MirNumber, MirOr, MirValue, MirVarRef,
    MirXor,
};
use crate::mir::writer::MirInstructionWriter;
use crate::mir::{can_alloc_bit_spec, mir_wf, var_name_at, var_values, Mir, MirAction, MirAllocator, MirRawAction, MirVariable};
use crate::util::Quote;
use std::rc::Rc;

verus! {

broadcast use vstd::seq::group_seq_axioms;

/// An input-class address prefix: `I` or `E`.
pub open spec fn prefix_input(c: u8) -> bool {
    c == 73 || c == 69
}

/// An output-class address prefix: `Q` or `A`.
pub open spec fn prefix_output(c: u8) -> bool {
    c == 81 || c == 65
}

/// The text a quote names in the source.
pub open spec fn name_text(code: Seq<u8>, q: Quote) -> Seq<u8> {
    code.subrange(q.start as int, q.end as int)
}

/// The name quotes of the bindings, by slot index.
pub open spec fn var_names(m: Mir) -> Seq<Quote> {
    m.variables@.map_values(|v: MirVariable| v.name)
}

/// How a parsed value corresponds to its lowered form, against the source
/// text and the bindings visible while it was lowered.  Literals map
/// directly; an address literal's prefix selects its physical class; a name
/// resolves to the most recent matching binding; a builtin call's value has
/// the shape the builtin synthesizes, with flip-flop conditions lowered from
/// the call's arguments.
pub open spec fn lowers_to(code: Seq<u8>, names: Seq<Quote>, hv: HirValue, mv: MirValue) -> bool
    decreases hv,
{
    match hv.vtype {
        HirValueType::Number(x) => mv == MirValue::Number(MirNumber { value: x.value }),
        HirValueType::Bool(x) => mv == MirValue::Bool(MirBool { value: x.value }),
        HirValueType::BitAddress(x) => if prefix_input(x.prefix) {
            mv == MirValue::Address(
                MirAddress { atype: MirAddressType::PhysicalInput1, ptr: x.ptr, bit: x.bit },
            )
        } else if prefix_output(x.prefix) {
            mv == MirValue::Address(
                MirAddress { atype: MirAddressType::PhysicalOutput1, ptr: x.ptr, bit: x.bit },
            )
        } else {
            false
        },
        HirValueType::Not(x) => mv matches MirValue::Not(mn) && lowers_to(
            code,
            names,
            x.value,
            mn.value,
        ),
        HirValueType::And(x) => mv matches MirValue::And(ma) && lowers_to(
            code,
            names,
            x.left,
            ma.left,
        ) && lowers_to(code, names, x.right, ma.right),
        HirValueType::Or(x) => mv matches MirValue::Or(ma) && lowers_to(
            code,
            names,
            x.left,
            ma.left,
        ) && lowers_to(code, names, x.right, ma.right),
        HirValueType::Xor(x) => mv matches MirValue::Xor(ma) && lowers_to(
            code,
            names,
            x.left,
            ma.left,
        ) && lowers_to(code, names, x.right, ma.right),
        HirValueType::VarRef(_) => {
            let name = name_text(code, hv.quote);
            &&& mv matches MirValue::VarRef(r)
            &&& r.index < names.len()
            &&& name_text(code, names[r.index as int]) == name
            &&& forall|j: int|
                r.index < j < names.len() ==> name_text(code, #[trigger] names[j]) != name
        },
        HirValueType::Call(c) => {
            let name = name_text(code, c.name);
            match builtin_kind(name) {
                Some(BuiltinKind::Alloc1) => mv matches MirValue::Address(a) && a.atype
                    == MirAddressType::Memory1,
                Some(BuiltinKind::Alloc8) => mv matches MirValue::Address(a) && a.atype
                    == MirAddressType::Memory8,
                Some(BuiltinKind::Alloc16) => mv matches MirValue::Address(a) && a.atype
                    == MirAddressType::Memory16,
                Some(BuiltinKind::Alloc32) => mv matches MirValue::Address(a) && a.atype
                    == MirAddressType::Memory32,
                Some(BuiltinKind::Counter) => mv matches MirValue::Address(a) && a.atype
                    == MirAddressType::PhysicalCounter,
                Some(BuiltinKind::Rs) => {
                    &&& c.args@.len() == 2
                    &&& mv matches MirValue::Ops(o)
                    &&& o.ops@.len() == 3
                    &&& (o.ops@[0] matches crate::mir::ops::MirOp::ResetBit { cond, addr }
                        && addr.atype == MirAddressType::Memory1 && lowers_to(
                        code,
                        names,
                        c.args@[0],
                        cond,
                    ))
                    &&& (o.ops@[1] matches crate::mir::ops::MirOp::SetBit { cond, addr }
                        && addr.atype == MirAddressType::Memory1 && lowers_to(
                        code,
                        names,
                        c.args@[1],
                        cond,
                    ))
                    &&& o.ops@[2] matches crate::mir::ops::MirOp::And { addr }
                },
                Some(BuiltinKind::Sr) => {
                    &&& c.args@.len() == 2
                    &&& mv matches MirValue::Ops(o)
                    &&& o.ops@.len() == 3
                    &&& (o.ops@[0] matches crate::mir::ops::MirOp::SetBit { cond, addr }
                        && addr.atype == MirAddressType::Memory1 && lowers_to(
                        code,
                        names,
                        c.args@[0],
                        cond,
                    ))
                    &&& (o.ops@[1] matches crate::mir::ops::MirOp::ResetBit { cond, addr }
                        && addr.atype == MirAddressType::Memory1 && lowers_to(
                        code,
                        names,
                        c.args@[1],
                        cond,
                    ))
                    &&& o.ops@[2] matches crate::mir::ops::MirOp::And { addr }
                },
                None => false,
            }
        },
    }
}

/// Borrows the source text of a byte range.
fn code_slice(mir: &Mir, start: usize, end: usize) -> (r: &[u8])
    requires
        start <= end,
        end <= mir.source.code@.len(),
    ensures
        r@ == mir.source.code@.subrange(start as int, end as int),
{
    &mir.source.code.as_slice()[start..end]
}

/// Lowers a list of argument expressions in order.
pub fn transform_values(mir: &mut Mir, hir_values: Vec<HirValue>) -> (r: Result<
    Vec<MirValue>,
    Error,
>)
    requires
        mir_wf(*old(mir)),
        hir_args_wf(hir_values@, old(mir).source.code@.len()),
    ensures
        mir_wf(*final(mir)),
        final(mir).source == old(mir).source,
        final(mir).variables == old(mir).variables,
        final(mir).actions == old(mir).actions,
        final(mir).allocator.allocated_bits >= old(mir).allocator.allocated_bits,
        final(mir).allocator.allocated_bytes >= old(mir).allocator.allocated_bytes,
        final(mir).allocator.allocated_counters >= old(mir).allocator.allocated_counters,
        r is Err ==> final(mir).allocator == lower_values_partial(
            old(mir).source.code@,
            var_names(*old(mir)),
            var_values(*old(mir)),
            old(mir).allocator,
            hir_values@,
        ),
        r matches Ok(vs) ==> {
            &&& vs@.len() == hir_values@.len()
            &&& forall|k: int|
                0 <= k < vs@.len() ==> stored_ok(
                    var_values(*final(mir)),
                    #[trigger] vs@[k],
                    final(mir).variables@.len() as nat,
                )
            &&& forall|k: int|
                0 <= k < vs@.len() ==> lowers_to(
                    old(mir).source.code@,
                    var_names(*old(mir)),
                    hir_values@[k],
                    #[trigger] vs@[k],
                )
        },
        ({
            let code = old(mir).source.code@;
            let names = var_names(*old(mir));
            let vals = var_values(*old(mir));
            match r {
                Ok(_) => lower_values_spec(code, names, vals, old(mir).allocator, hir_values@)
                    == Ok::<MirAllocator, Error>(final(mir).allocator),
                Err(e) => lower_values_spec(code, names, vals, old(mir).allocator, hir_values@)
                    == Err::<MirAllocator, Error>(e),
            }
        }),
    decreases hir_values@,
{
    let ghost orig = hir_values@;
    if hir_values.len() == 0 {
        return Ok(Vec::new());
    }
    let mut rest = hir_values;
    let first = rest.remove(0);
    proof {
        assert(decreases_to!(orig => orig[0]));
        assert(rest@ =~= orig.drop_first());
        assert(decreases_to!(orig => rest@)) by {
            assert(orig.subrange(1, orig.len() as int) =~= rest@);
        }
    }
    let mv = match transform_value(mir, first) {
        Ok(v) => v,
        Err(e) => {
            return Err(e);
        },
    };
    let rest_vs = match transform_values(mir, rest) {
        Ok(vs) => vs,
        Err(e) => {
            return Err(e);
        },
    };
    let mut out = rest_vs;
    out.insert(0, mv);
    proof {
        assert forall|k: int| 0 <= k < out@.len() implies lowers_to(
            old(mir).source.code@,
            var_names(*old(mir)),
            orig[k],
            #[trigger] out@[k],
        ) by {
            if k > 0 {
                assert(out@[k] == out@.subrange(1, out@.len() as int)[k - 1]);
                assert(orig.drop_first()[k - 1] == orig[k]);
            }
        }
        assert forall|k: int| 0 <= k < out@.len() implies stored_ok(
            var_values(*mir),
            #[trigger] out@[k],
            mir.variables@.len() as nat,
        ) by {
            if k > 0 {
                assert(out@[k] == out@.subrange(1, out@.len() as int)[k - 1]);
            }
        }
    }
    Ok(out)
}

/// Lowers one value expression.  The bindings and actions never change; only
/// the allocator advances, through builtin calls.
pub fn transform_value(mir: &mut Mir, value: HirValue) -> (r: Result<MirValue, Error>)
    requires
        mir_wf(*old(mir)),
        hir_value_wf(value, old(mir).source.code@.len()),
    ensures
        mir_wf(*final(mir)),
        final(mir).source == old(mir).source,
        final(mir).variables == old(mir).variables,
        final(mir).actions == old(mir).actions,
        final(mir).allocator.allocated_bits >= old(mir).allocator.allocated_bits,
        final(mir).allocator.allocated_bytes >= old(mir).allocator.allocated_bytes,
        final(mir).allocator.allocated_counters >= old(mir).allocator.allocated_counters,
        r is Err ==> final(mir).allocator == lower_value_partial(
            old(mir).source.code@,
            var_names(*old(mir)),
            var_values(*old(mir)),
            old(mir).allocator,
            value,
        ),
        r matches Ok(v) ==> stored_ok(
            var_values(*final(mir)),
            v,
            final(mir).variables@.len() as nat,
        ),
        r matches Ok(v) ==> lowers_to(old(mir).source.code@, var_names(*old(mir)), value, v),
        ({
            let code = old(mir).source.code@;
            let names = var_names(*old(mir));
            let vals = var_values(*old(mir));
            match r {
                Ok(_) => lower_value_spec(code, names, vals, old(mir).allocator, value) == Ok::<
                    MirAllocator,
                    Error,
                >(final(mir).allocator),
                Err(e) => lower_value_spec(code, names, vals, old(mir).allocator, value) == Err::<
                    MirAllocator,
                    Error,
                >(e),
            }
        }),
    decreases value,
{
    let ghost hv = value;
    let ghost gcode = mir.source.code@;
    let ghost gnames = var_names(*mir);
    let ghost gvals = var_values(*mir);
    let ghost ga = mir.allocator;
    let quote = value.quote;
    match value.vtype {
        HirValueType::Number(number) => {
            proof {
                assert(lower_value_spec(gcode, gnames, gvals, ga, hv) == Ok::<
                    MirAllocator,
                    Error,
                >(mir.allocator));
            }
            Ok(MirValue::Number(MirNumber { value: number.value }))
        },
        HirValueType::Bool(b) => {
            proof {
                assert(lower_value_spec(gcode, gnames, gvals, ga, hv) == Ok::<
                    MirAllocator,
                    Error,
                >(mir.allocator));
            }
            Ok(MirValue::Bool(MirBool { value: b.value }))
        },
        HirValueType::BitAddress(a) => {
            if a.prefix == 73 || a.prefix == 69 {
                Ok(
                    MirValue::Address(
                        MirAddress {
                            atype: MirAddressType::PhysicalInput1,
                            ptr: a.ptr,
                            bit: a.bit,
                        },
                    ),
                )
            } else if a.prefix == 81 || a.prefix == 65 {
                Ok(
                    MirValue::Address(
                        MirAddress {
                            atype: MirAddressType::PhysicalOutput1,
                            ptr: a.ptr,
                            bit: a.bit,
                        },
                    ),
                )
            } else {
                proof {
                    assert(lower_value_spec(gcode, gnames, gvals, ga, hv) == Err::<
                        MirAllocator,
                        Error,
                    >(Error { quote: hv.quote, reason: Reason::UnknownBitAddressType }));
                }
                Err(Error::new(quote, Reason::UnknownBitAddressType))
            }
        },
        HirValueType::Not(x) => {
            proof {
                assert(decreases_to!(hv => hv.vtype));
                assert(decreases_to!(hv.vtype => hv.vtype->Not_0));
                assert(decreases_to!(hv.vtype->Not_0 => hv.vtype->Not_0.value));
            }
            let inner = match transform_value(mir, x.value) {
                Ok(v) => v,
                Err(e) => {
                    proof {
                        assert(lower_value_spec(gcode, gnames, gvals, ga, hv) == Err::<
                            MirAllocator,
                            Error,
                        >(e));
                    }
                    return Err(e);
                },
            };
            proof {
                assert(lower_value_spec(gcode, gnames, gvals, ga, hv) == Ok::<
                    MirAllocator,
                    Error,
                >(mir.allocator));
            }
            Ok(MirValue::Not(Rc::new(MirNot { value: inner })))
        },
        HirValueType::And(x) => {
            proof {
                assert(decreases_to!(hv => hv.vtype));
                assert(decreases_to!(hv.vtype => hv.vtype->And_0));
                assert(decreases_to!(hv.vtype->And_0 => hv.vtype->And_0.left));
                assert(decreases_to!(hv.vtype->And_0 => hv.vtype->And_0.right));
            }
            let b = *x;
            let left = match transform_value(mir, b.left) {
                Ok(v) => v,
                Err(e) => {
                    proof {
                        assert(lower_value_spec(gcode, gnames, gvals, ga, hv) == Err::<
                            MirAllocator,
                            Error,
                        >(e));
                    }
                    return Err(e);
                },
            };
            proof {
                assert(var_names(*mir) == gnames);
                assert(var_values(*mir) == gvals);
                assert(mir.source.code@ == gcode);
            }
            let ghost a1 = mir.allocator;
            let right = match transform_value(mir, b.right) {
                Ok(v) => v,
                Err(e) => {
                    proof {
                        assert(lower_value_spec(gcode, gnames, gvals, a1, b.right) == Err::<
                            MirAllocator,
                            Error,
                        >(e));
                        assert(lower_value_spec(gcode, gnames, gvals, ga, hv) == Err::<
                            MirAllocator,
                            Error,
                        >(e));
                    }
                    return Err(e);
                },
            };
            proof {
                assert(lower_value_spec(gcode, gnames, gvals, ga, hv) == Ok::<
                    MirAllocator,
                    Error,
                >(mir.allocator));
            }
            Ok(MirValue::And(Rc::new(MirAnd { left, right })))
        },
        HirValueType::Or(x) => {
            proof {
                assert(decreases_to!(hv => hv.vtype));
                assert(decreases_to!(hv.vtype => hv.vtype->Or_0));
                assert(decreases_to!(hv.vtype->Or_0 => hv.vtype->Or_0.left));
                assert(decreases_to!(hv.vtype->Or_0 => hv.vtype->Or_0.right));
            }
            let b = *x;
            let left = match transform_value(mir, b.left) {
                Ok(v) => v,
                Err(e) => {
                    proof {
                        assert(lower_value_spec(gcode, gnames, gvals, ga, hv) == Err::<
                            MirAllocator,
                            Error,
                        >(e));
                    }
                    return Err(e);
                },
            };
            proof {
                assert(var_names(*mir) == gnames);
                assert(var_values(*mir) == gvals);
                assert(mir.source.code@ == gcode);
            }
            let ghost a1 = mir.allocator;
            let right = match transform_value(mir, b.right) {
                Ok(v) => v,
                Err(e) => {
                    proof {
                        assert(lower_value_spec(gcode, gnames, gvals, a1, b.right) == Err::<
                            MirAllocator,
                            Error,
                        >(e));
                        assert(lower_value_spec(gcode, gnames, gvals, ga, hv) == Err::<
                            MirAllocator,
                            Error,
                        >(e));
                    }
                    return Err(e);
                },
            };
            proof {
                assert(lower_value_spec(gcode, gnames, gvals, ga, hv) == Ok::<
                    MirAllocator,
                    Error,
                >(mir.allocator));
            }
            Ok(MirValue::Or(Rc::new(MirOr { left, right })))
        },
        HirValueType::Xor(x) => {
            proof {
                assert(decreases_to!(hv => hv.vtype));
                assert(decreases_to!(hv.vtype => hv.vtype->Xor_0));
                assert(decreases_to!(hv.vtype->Xor_0 => hv.vtype->Xor_0.left));
                assert(decreases_to!(hv.vtype->Xor_0 => hv.vtype->Xor_0.right));
            }
            let b = *x;
            let left = match transform_value(mir, b.left) {
                Ok(v) => v,
                Err(e) => {
                    proof {
                        assert(lower_value_spec(gcode, gnames, gvals, ga, hv) == Err::<
                            MirAllocator,
                            Error,
                        >(e));
                    }
                    return Err(e);
                },
            };
            proof {
                assert(var_names(*mir) == gnames);
                assert(var_values(*mir) == gvals);
                assert(mir.source.code@ == gcode);
            }
            let ghost a1 = mir.allocator;
            let right = match transform_value(mir, b.right) {
                Ok(v) => v,
                Err(e) => {
                    proof {
                        assert(lower_value_spec(gcode, gnames, gvals, a1, b.right) == Err::<
                            MirAllocator,
                            Error,
                        >(e));
                        assert(lower_value_spec(gcode, gnames, gvals, ga, hv) == Err::<
                            MirAllocator,
                            Error,
                        >(e));
                    }
                    return Err(e);
                },
            };
            proof {
                assert(lower_value_spec(gcode, gnames, gvals, ga, hv) == Ok::<
                    MirAllocator,
                    Error,
                >(mir.allocator));
            }
            Ok(MirValue::Xor(Rc::new(MirXor { left, right })))
        },
        HirValueType::VarRef(_) => {
            let name = code_slice(mir, quote.start, quote.end);
            let found = mir.find_var(name);
            proof {
                let nm = name_text(gcode, hv.quote);
                assert forall|j: int| 0 <= j < gnames.len() implies name_text(
                    gcode,
                    #[trigger] gnames[j],
                ) == var_name_at(*mir, j) by {}
                lemma_resolve_name_char(gcode, gnames, nm);
                match found {
                    Some(index) => {
                        assert(name_text(gcode, gnames[index as int]) == nm);
                        match resolve_name(gcode, gnames, nm) {
                            Some(i) => {
                                if i < index as int {
                                    assert(name_text(gcode, gnames[index as int]) != nm);
                                }
                                if i > index as int {
                                    assert(var_name_at(*mir, i) == name_text(gcode, gnames[i]));
                                    assert(var_name_at(*mir, i) != nm);
                                    assert(name_text(gcode, gnames[i]) == nm);
                                }
                                assert(i == index as int);
                            },
                            None => {
                                assert(name_text(gcode, gnames[index as int]) != nm);
                                assert(false);
                            },
                        }
                    },
                    None => {
                        match resolve_name(gcode, gnames, nm) {
                            Some(i) => {
                                assert(name_text(gcode, gnames[i]) == nm);
                                assert(var_name_at(*mir, i) != nm);
                                assert(false);
                            },
                            None => {},
                        }
                    },
                }
                assert(lower_value_spec(gcode, gnames, gvals, ga, hv) == (match found {
                    Some(_) => Ok::<MirAllocator, Error>(mir.allocator),
                    None => Err::<MirAllocator, Error>(
                        Error { quote: hv.quote, reason: Reason::UnknownVariable },
                    ),
                }));
            }
            match found {
                Some(index) => Ok(MirValue::VarRef(MirVarRef { index })),
                None => Err(Error::new(quote, Reason::UnknownVariable)),
            }
        },
        HirValueType::Call(c) => {
            let ghost cargs = c.args@;
            proof {
                assert(decreases_to!(hv => hv.vtype));
                assert(decreases_to!(hv.vtype => hv.vtype->Call_0));
                assert(decreases_to!(hv.vtype->Call_0 => hv.vtype->Call_0.args));
                assert(decreases_to!(hv.vtype->Call_0.args => hv.vtype->Call_0.args@));
            }
            let name_quote = c.name;
            let kind = {
                let name = code_slice(mir, name_quote.start, name_quote.end);
                builtin_lookup(name)
            };
            match kind {
                Some(k) => {
                    let args = match transform_values(mir, c.args) {
                        Ok(vs) => vs,
                        Err(e) => {
                            proof {
                                assert(lower_value_spec(gcode, gnames, gvals, ga, hv) == Err::<
                                    MirAllocator,
                                    Error,
                                >(e));
                            }
                            return Err(e);
                        },
                    };
                    let ghost amid = mir.allocator;
                    let res = call_builtin(mir, k, quote, args.as_slice());
                    proof {
                        let code = old(mir).source.code@;
                        let names = var_names(*old(mir));
                        let vals = var_values(*old(mir));
                        assert(var_values(*mir) =~= vals);
                        assert(names.len() == vals.len());
                        if (k is Rs || k is Sr) && cargs.len() == 2 {
                            lemma_lowers_readable(code, names, vals, cargs[0], args@[0]);
                            lemma_lowers_readable(code, names, vals, cargs[1], args@[1]);
                        }
                        assert(lower_values_spec(code, names, vals, ga, cargs) == Ok::<
                            MirAllocator,
                            Error,
                        >(amid));
                        assert(builtin_spec_result(k, amid, code, names, vals, cargs, hv.quote)
                            == (match res {
                            Ok(_) => Ok::<MirAllocator, Error>(mir.allocator),
                            Err(e) => Err::<MirAllocator, Error>(e),
                        }));
                        assert(lower_value_spec(code, names, vals, ga, hv) == (match res {
                            Ok(_) => Ok::<MirAllocator, Error>(mir.allocator),
                            Err(e) => Err::<MirAllocator, Error>(e),
                        }));
                    }
                    res
                },
                None => {
                    proof {
                        assert(lower_value_spec(gcode, gnames, gvals, ga, hv) == Err::<
                            MirAllocator,
                            Error,
                        >(Error { quote: hv.vtype->Call_0.name, reason: Reason::UnknownFunction }));
                    }
                    Err(Error::new(name_quote, Reason::UnknownFunction))
                },
            }
        },
    }
}

/// Lets in program order contribute one binding each.
pub open spec fn count_lets(stmts: Seq<HirStatement>) -> nat
    decreases stmts.len(),
{
    if stmts.len() == 0 {
        0
    } else {
        count_lets(stmts.drop_last()) + (if stmts.last() is Let {
            1nat
        } else {
            0nat
        })
    }
}

/// The name quotes of the `let` statements, in program order.
pub open spec fn let_names(stmts: Seq<HirStatement>) -> Seq<Quote>
    decreases stmts.len(),
{
    if stmts.len() == 0 {
        Seq::empty()
    } else {
        let_names(stmts.drop_last()) + (match stmts.last() {
            HirStatement::Let(s) => seq![s.name],
            _ => Seq::<Quote>::empty(),
        })
    }
}

/// One flag per compiled action, in program order: `true` for a write's
/// output action, `false` for a bare call's raw action.
pub open spec fn action_flags(stmts: Seq<HirStatement>) -> Seq<bool>
    decreases stmts.len(),
{
    if stmts.len() == 0 {
        Seq::empty()
    } else {
        action_flags(stmts.drop_last()) + (match stmts.last() {
            HirStatement::Let(_) => Seq::<bool>::empty(),
            HirStatement::Write(_) => seq![true],
            HirStatement::Call(_) => seq![false],
        })
    }
}

/// Lowers a `let`: the value is lowered against the current bindings and
/// appended as a new binding, shadowing any earlier one of the same name.
pub fn transform_let(mir: &mut Mir, stmt: HirLetStatement) -> (r: Result<(), Error>)
    requires
        mir_wf(*old(mir)),
        crate::hir::name_wf(stmt.name, old(mir).source.code@.len()),
        hir_value_wf(stmt.value, old(mir).source.code@.len()),
    ensures
        mir_wf(*final(mir)),
        final(mir).source == old(mir).source,
        final(mir).actions == old(mir).actions,
        r matches Ok(()) ==> {
            &&& final(mir).variables@.len() == old(mir).variables@.len() + 1
            &&& final(mir).variables@.subrange(0, old(mir).variables@.len() as int) == old(
                mir,
            ).variables@
            &&& final(mir).variables@.last().name == stmt.name
            &&& lowers_to(
                old(mir).source.code@,
                var_names(*old(mir)),
                stmt.value,
                final(mir).variables@.last().value,
            )
        },
        r is Err ==> final(mir).variables == old(mir).variables,
        ({
            let code = old(mir).source.code@;
            let names = var_names(*old(mir));
            let vals = var_values(*old(mir));
            match r {
                Ok(_) => lower_value_spec(code, names, vals, old(mir).allocator, stmt.value)
                    == Ok::<MirAllocator, Error>(final(mir).allocator),
                Err(e) => lower_value_spec(code, names, vals, old(mir).allocator, stmt.value)
                    == Err::<MirAllocator, Error>(e),
            }
        }),
{
    let HirLetStatement { name, value, .. } = stmt;
    let mir_value = match transform_value(mir, value) {
        Ok(v) => v,
        Err(e) => {
            return Err(e);
        },
    };
    let ghost vals = var_values(*mir);
    let ghost n = mir.variables@.len() as nat;
    mir.variables.push(MirVariable { name, value: mir_value });
    proof {
        let vals2 = var_values(*mir);
        assert(vals2 =~= vals.push(mir.variables@.last().value));
        assert forall|j: int| 0 <= j < vals2.len() implies stored_ok(
            vals2,
            vals2[j],
            j as nat,
        ) by {
            if j < n {
                lemma_stored_ok_frame(vals, vals2, vals[j], j as nat);
            } else {
                lemma_stored_ok_frame(vals, vals2, vals2[j], n);
            }
        }
        assert(mir_wf(*mir));
        assert(mir.variables@.subrange(0, n as int) =~= old(mir).variables@);
    }
    Ok(())
}

/// Lowers a write: resolves the name against the most recent binding, lowers
/// the new value, and hands it to the binding's write handler.
pub fn transform_write(mir: &mut Mir, stmt: HirWriteStatement) -> (r: Result<(), Error>)
    requires
        mir_wf(*old(mir)),
        crate::hir::name_wf(stmt.name, old(mir).source.code@.len()),
        hir_value_wf(stmt.value, old(mir).source.code@.len()),
    ensures
        mir_wf(*final(mir)),
        final(mir).source == old(mir).source,
        final(mir).variables == old(mir).variables,
        r matches Ok(()) ==> {
            &&& final(mir).actions@.len() == old(mir).actions@.len() + 1
            &&& final(mir).actions@.subrange(0, old(mir).actions@.len() as int) == old(
                mir,
            ).actions@
            &&& final(mir).actions@.last() is Output
        },
        r is Err ==> final(mir).actions == old(mir).actions,
        ({
            let code = old(mir).source.code@;
            let names = var_names(*old(mir));
            let vals = var_values(*old(mir));
            match r {
                Ok(_) => write_stmt_spec(code, names, vals, old(mir).allocator, stmt.name,
                    stmt.value) == Ok::<MirAllocator, Error>(final(mir).allocator),
                Err(e) => write_stmt_spec(code, names, vals, old(mir).allocator, stmt.name,
                    stmt.value) == Err::<MirAllocator, Error>(e),
            }
        }),
        r matches Ok(()) ==> ({
            let code = old(mir).source.code@;
            let names = var_names(*old(mir));
            let vals = var_values(*old(mir));
            let n = vals.len() as nat;
            &&& resolve_name(code, names, name_text(code, stmt.name)) matches Some(i)
                && (final(mir).actions@.last() matches MirAction::Output(oa)
                && oa.address == crate::mir::value::write_target(vals, vals[i], n)->Address_0
                && crate::mir::optimizer::opt_ok(oa.instructions@)
                && crate::mir::optimizer::opt_result(oa.instructions@) == oa.instructions@
                && exists|mv: MirValue|
                    lowers_to(code, names, stmt.value, mv) && oa.instructions@ == #[trigger] owseq(
                        vals,
                        mv,
                        n,
                    ))
        }),
{
    let ghost gcode = mir.source.code@;
    let ghost gnames = var_names(*mir);
    let ghost gvals = var_values(*mir);
    let ghost ga = mir.allocator;
    let ghost ghv = stmt.value;
    let name_quote = stmt.name;
    let found = {
        let name = code_slice(mir, name_quote.start, name_quote.end);
        mir.find_var(name)
    };
    proof {
        let nm = name_text(gcode, name_quote);
        assert forall|j: int| 0 <= j < gnames.len() implies name_text(
            gcode,
            #[trigger] gnames[j],
        ) == var_name_at(*mir, j) by {}
        lemma_resolve_name_char(gcode, gnames, nm);
        match found {
            Some(index) => {
                assert(name_text(gcode, gnames[index as int]) == nm);
                match resolve_name(gcode, gnames, nm) {
                    Some(i) => {
                        if i < index as int {
                            assert(name_text(gcode, gnames[index as int]) != nm);
                        }
                        if i > index as int {
                            assert(var_name_at(*mir, i) == name_text(gcode, gnames[i]));
                            assert(name_text(gcode, gnames[i]) == nm);
                        }
                        assert(i == index as int);
                    },
                    None => {
                        assert(name_text(gcode, gnames[index as int]) != nm);
                        assert(false);
                    },
                }
            },
            None => {
                match resolve_name(gcode, gnames, nm) {
                    Some(i) => {
                        assert(name_text(gcode, gnames[i]) == nm);
                        assert(var_name_at(*mir, i) != nm);
                        assert(false);
                    },
                    None => {},
                }
            },
        }
    }
    let index = match found {
        Some(i) => i,
        None => {
            return Err(Error::new(name_quote, Reason::UnknownVariable));
        },
    };
    let var_value = mir.variables[index].value.clone();
    let value_quote = stmt.value.quote;
    let mir_value = match transform_value(mir, stmt.value) {
        Ok(v) => v,
        Err(e) => {
            return Err(e);
        },
    };
    let ghost gmv = mir_value;
    proof {
        let vals = var_values(*mir);
        assert(vals =~= gvals);
        assert(vals[index as int] == mir.variables@[index as int].value);
        lemma_stored_ok_widen(vals, vals[index as int], index as nat, vals.len() as nat);
        lemma_lowers_readable(gcode, gnames, gvals, ghv, gmv);
    }
    match var_value.write(mir, value_quote, index, mir_value) {
        Ok(()) => {
            proof {
                let n = gvals.len() as nat;
                assert(lowers_to(gcode, gnames, ghv, gmv) && mir.actions@.last()->Output_0.instructions@
                    == owseq(gvals, gmv, n));
                lemma_readable_serializable(gvals, gmv, n);
                crate::mir::optimizer::lemma_optimizer_idempotent(gvals, gmv, n);
            }
            Ok(())
        },
        Err(e) => Err(e),
    }
}

/// Lowers a bare call: resolves and invokes the builtin, requires the result
/// to read as a bit, serializes and optimizes it, and records a raw action.
pub fn transform_call(mir: &mut Mir, call: HirCallStatement) -> (r: Result<(), Error>)
    requires
        mir_wf(*old(mir)),
        crate::hir::name_wf(call.name, old(mir).source.code@.len()),
        crate::hir::quote_wf(call.quote, old(mir).source.code@.len()),
        hir_args_wf(call.args@, old(mir).source.code@.len()),
    ensures
        mir_wf(*final(mir)),
        final(mir).source == old(mir).source,
        final(mir).variables == old(mir).variables,
        r matches Ok(()) ==> {
            &&& final(mir).actions@.len() == old(mir).actions@.len() + 1
            &&& final(mir).actions@.subrange(0, old(mir).actions@.len() as int) == old(
                mir,
            ).actions@
            &&& final(mir).actions@.last() is Raw
        },
        r is Err ==> final(mir).actions == old(mir).actions,
        ({
            let code = old(mir).source.code@;
            let names = var_names(*old(mir));
            let vals = var_values(*old(mir));
            match r {
                Ok(_) => call_stmt_spec(code, names, vals, old(mir).allocator, call.name,
                    call.quote, call.args@) == Ok::<MirAllocator, Error>(final(mir).allocator),
                Err(e) => call_stmt_spec(code, names, vals, old(mir).allocator, call.name,
                    call.quote, call.args@) == Err::<MirAllocator, Error>(e),
            }
        }),
        r matches Ok(()) ==> ({
            let code = old(mir).source.code@;
            let names = var_names(*old(mir));
            let vals = var_values(*old(mir));
            let n = vals.len() as nat;
            &&& final(mir).actions@.last() matches MirAction::Raw(ra)
            &&& crate::mir::optimizer::opt_ok(ra.instructions@)
            &&& crate::mir::optimizer::opt_result(ra.instructions@) == ra.instructions@
            &&& exists|mv: MirValue|
                lowers_to(
                    code,
                    names,
                    (HirValue {
                        quote: call.quote,
                        vtype: HirValueType::Call(HirCall { name: call.name, args: call.args }),
                    }),
                    mv,
                ) && ra.instructions@ == #[trigger] owseq(vals, mv, n)
        }),
{
    let ghost gcode = mir.source.code@;
    let ghost gnames = var_names(*mir);
    let ghost gvals = var_values(*mir);
    let ghost ga = mir.allocator;
    let ghost ghv = HirValue {
        quote: call.quote,
        vtype: HirValueType::Call(HirCall { name: call.name, args: call.args }),
    };
    let ghost gargs = call.args@;
    let name_quote = call.name;
    let call_quote = call.quote;
    let kind = {
        let name = code_slice(mir, name_quote.start, name_quote.end);
        builtin_lookup(name)
    };
    let k = match kind {
        Some(k) => k,
        None => {
            return Err(Error::new(name_quote, Reason::UnknownFunction));
        },
    };
    let args = match transform_values(mir, call.args) {
        Ok(vs) => vs,
        Err(e) => {
            return Err(e);
        },
    };
    let ghost amid = mir.allocator;
    let value = match call_builtin(mir, k, call_quote, args.as_slice()) {
        Ok(v) => v,
        Err(e) => {
            proof {
                assert(var_values(*mir) =~= gvals);
                assert(gnames.len() == gvals.len());
                if (k is Rs || k is Sr) && gargs.len() == 2 {
                    lemma_lowers_readable(gcode, gnames, gvals, gargs[0], args@[0]);
                    lemma_lowers_readable(gcode, gnames, gvals, gargs[1], args@[1]);
                }
            }
            return Err(e);
        },
    };
    proof {
        assert(var_values(*mir) =~= gvals);
        assert(gnames.len() == gvals.len());
        if (k is Rs || k is Sr) && gargs.len() == 2 {
            lemma_lowers_readable(gcode, gnames, gvals, gargs[0], args@[0]);
            lemma_lowers_readable(gcode, gnames, gvals, gargs[1], args@[1]);
        }
        // the returned value's readability and lowered shape, by kind
        assert(lowers_to(gcode, gnames, ghv, value) && crate::mir::value::bit_readable(
            gvals,
            value,
            gvals.len() as nat,
        ) == builtin_reads_bit(k)) by {
            if k is Alloc1 || k is Alloc8 || k is Alloc16 || k is Alloc32 || k is Counter {
            }
        }
    }
    if !value.is_bit_readable(mir) {
        return Err(Error::new(call_quote, Reason::ValueNotBitReadable));
    }
    let ghost vals = var_values(*mir);
    let ghost n = mir.variables@.len() as nat;
    proof {
        lemma_readable_serializable(vals, value, n);
        lemma_opt_wseq(vals, value, n, opt_init());
        assert(Seq::<crate::mir::MirInstruction>::empty() + owseq(vals, value, n) =~= owseq(
            vals,
            value,
            n,
        ));
    }
    let ghost gval = value;
    let mut writer = MirInstructionWriter::default();
    writer.write_value(mir, &value);
    proof {
        assert(writer.instructions@ =~= crate::mir::writer::wseq(vals, value, n));
    }
    optimize(&mut writer);
    let ghost before = mir.actions@;
    mir.actions.push(MirAction::Raw(MirRawAction { instructions: writer.instructions }));
    proof {
        assert(mir.actions@.subrange(0, before.len() as int) =~= before);
        assert(lowers_to(gcode, gnames, ghv, gval) && mir.actions@.last()->Raw_0.instructions@
            == owseq(gvals, gval, gvals.len() as nat));
        crate::mir::optimizer::lemma_optimizer_idempotent(gvals, gval, gvals.len() as nat);
    }
    Ok(())
}

/// Statement-prefix counters only grow along the program.
pub proof fn lemma_prefix_counts_mono(stmts: Seq<HirStatement>, j: int, k: int)
    requires
        0 <= j <= k <= stmts.len(),
    ensures
        count_lets(stmts.subrange(0, j)) <= count_lets(stmts.subrange(0, k)),
        action_flags(stmts.subrange(0, j)).len() <= action_flags(stmts.subrange(0, k)).len(),
    decreases k - j,
{
    if j < k {
        assert(stmts.subrange(0, k).drop_last() =~= stmts.subrange(0, k - 1));
        lemma_prefix_counts_mono(stmts, j, k - 1);
    }
}

/// The content of the action a write or call statement compiled to, judged
/// against the bindings visible at that statement: the output action's
/// address is the resolved binding's chain end, and its instructions are
/// the optimized serialization of a value the statement's expression lowers
/// to; a raw action likewise carries the optimized serialization of the
/// call's value.
pub open spec fn action_content(
    code: Seq<u8>,
    stmts: Seq<HirStatement>,
    j: int,
    vars_all: Seq<MirValue>,
    actions: Seq<MirAction>,
) -> bool {
    let pfx = count_lets(stmts.subrange(0, j)) as int;
    let names = let_names(stmts.subrange(0, j));
    let vals = vars_all.subrange(0, pfx);
    let ak = action_flags(stmts.subrange(0, j)).len() as int;
    &&& (stmts[j] matches HirStatement::Write(ws) ==> (0 <= ak < actions.len() && (actions[ak]
        matches MirAction::Output(oa) && (resolve_name(code, names, name_text(code, ws.name))
        matches Some(ix) && 0 <= ix < vals.len() && oa.address
        == crate::mir::value::write_target(vals, vals[ix], pfx as nat)->Address_0)
        && exists|mv: MirValue|
            lowers_to(code, names, ws.value, mv) && oa.instructions@ == #[trigger] owseq(
                vals,
                mv,
                pfx as nat,
            ))))
    &&& (stmts[j] matches HirStatement::Call(cs) ==> (0 <= ak < actions.len() && (actions[ak]
        matches MirAction::Raw(ra) && exists|mv: MirValue|
            lowers_to(
                code,
                names,
                (HirValue {
                    quote: cs.quote,
                    vtype: HirValueType::Call(HirCall { name: cs.name, args: cs.args }),
                }),
                mv,
            ) && ra.instructions@ == #[trigger] owseq(vals, mv, pfx as nat))))
}

/// Every compiled action is normalized: its instruction stream is a fixed
/// point of the bracket optimizer, and an output action targets a physical
/// output.
pub open spec fn action_normalized(act: MirAction) -> bool {
    match act {
        MirAction::Output(oa) => oa.address.atype == MirAddressType::PhysicalOutput1
            && crate::mir::optimizer::opt_ok(oa.instructions@)
            && crate::mir::optimizer::opt_result(oa.instructions@) == oa.instructions@,
        MirAction::Raw(ra) => crate::mir::optimizer::opt_ok(ra.instructions@)
            && crate::mir::optimizer::opt_result(ra.instructions@) == ra.instructions@,
    }
}

/// Lowers the whole program, statement by statement.  On success the result
/// holds one binding per `let` — named by the `let`s in program order — and
/// one action per write or bare call, output actions for writes and raw
/// actions for calls, in program order.
#[verifier::rlimit(100)]
#[verifier::spinoff_prover]
pub fn transform(hir: Hir) -> (r: Result<Mir, Error>)
    requires
        crate::hir::hir_wf(hir),
    ensures
        r matches Ok(m) ==> {
            &&& mir_wf(m)
            &&& m.source == hir.source
            &&& m.variables@.len() == count_lets(hir.statements@)
            &&& var_names(m) == let_names(hir.statements@)
            &&& m.actions@.len() == action_flags(hir.statements@).len()
            &&& forall|k: int|
                0 <= k < m.actions@.len() ==> ((#[trigger] m.actions@[k]) is Output
                    <==> action_flags(hir.statements@)[k])
            &&& forall|k: int|
                0 <= k < m.actions@.len() ==> action_normalized(#[trigger] m.actions@[k])
        },
        ({
            let code = hir.source.code@;
            match r {
                Ok(m) => stmts_lower_spec(code, lower_init(), hir.statements@) matches Ok(st)
                    && st.alloc == m.allocator && st.names == var_names(m),
                Err(e) => stmts_lower_spec(code, lower_init(), hir.statements@) == Err::<
                    LowerState,
                    Error,
                >(e),
            }
        }),
        r matches Ok(m) ==> forall|j: int|
            0 <= j < hir.statements@.len() ==> action_content(
                hir.source.code@,
                hir.statements@,
                j,
                var_values(m),
                m.actions@,
            ),
{
    let ghost stmts = hir.statements@;
    let ghost srcv = hir.source;
    let Hir { source, statements } = hir;
    let mut mir = Mir::new(source);
    let mut rest = statements;
    let mut done: usize = 0;
    let ghost total = stmts.len();
    proof {
        assert(rest.len() == stmts.len());
        assert(stmts.subrange(0, 0) =~= Seq::<HirStatement>::empty());
        assert(var_names(mir) =~= Seq::<Quote>::empty());
        assert(rest@ =~= stmts.subrange(0, total as int));
        assert(readability_bits(mir) =~= Seq::<bool>::empty());
        assert(output_bits(mir) =~= Seq::<bool>::empty());
        assert((LowerState {
            names: var_names(mir),
            rbits: readability_bits(mir),
            obits: output_bits(mir),
            alloc: mir.allocator,
        }) =~= lower_init());
    }
    loop
        invariant
            0 <= done <= total,
            total == stmts.len(),
            total <= usize::MAX,
            stmts == hir.statements@,
            srcv == hir.source,
            rest@ =~= stmts.subrange(done as int, total as int),
            mir_wf(mir),
            mir.source == srcv,
            forall|k: int|
                0 <= k < stmts.len() ==> crate::hir::hir_statement_wf(
                    #[trigger] stmts[k],
                    srcv.code@.len(),
                ),
            mir.variables@.len() == count_lets(stmts.subrange(0, done as int)),
            var_names(mir) == let_names(stmts.subrange(0, done as int)),
            mir.actions@.len() == action_flags(stmts.subrange(0, done as int)).len(),
            forall|k: int|
                0 <= k < mir.actions@.len() ==> ((#[trigger] mir.actions@[k]) is Output
                    <==> action_flags(stmts.subrange(0, done as int))[k]),
            forall|k: int|
                0 <= k < mir.actions@.len() ==> action_normalized(#[trigger] mir.actions@[k]),
            stmts_lower_spec(srcv.code@, lower_init(), stmts.subrange(0, done as int)) == Ok::<
                LowerState,
                Error,
            >(
                LowerState {
                    names: var_names(mir),
                    rbits: readability_bits(mir),
                    obits: output_bits(mir),
                    alloc: mir.allocator,
                },
            ),
            forall|j: int|
                0 <= j < done ==> action_content(
                    srcv.code@,
                    stmts,
                    j,
                    var_values(mir),
                    mir.actions@,
                ),
        decreases total - done,
    {
        if rest.len() == 0 {
            proof {
                assert(stmts.subrange(0, done as int) =~= stmts);
            }
            return Ok(mir);
        }
        let st = rest.remove(0);
        let ghost i = done as int;
        proof {
            assert(st == stmts[i]);
            assert(stmts.subrange(0, i + 1).drop_last() =~= stmts.subrange(0, i));
            assert(stmts.subrange(0, i + 1).last() == stmts[i]);
            assert(rest@ =~= stmts.subrange(i + 1, total as int));
        }
        let ghost names_before = var_names(mir);
        let ghost acts_before = mir.actions@;
        let ghost mpre = mir;
        let ghost lscur = LowerState {
            names: var_names(mpre),
            rbits: readability_bits(mpre),
            obits: output_bits(mpre),
            alloc: mpre.allocator,
        };
        match st {
            HirStatement::Let(s) => {
                match transform_let(&mut mir, s) {
                    Ok(()) => (),
                    Err(e) => {
                        proof {
                            let code = srcv.code@;
                            lemma_lower_b(
                                code,
                                lscur.names,
                                lscur.rbits,
                                var_values(mpre),
                                lscur.alloc,
                                stmts[i]->Let_0.value,
                            );
                            assert(stmts_lower_spec(code, lower_init(), stmts.subrange(0, i + 1))
                                == Err::<LowerState, Error>(e));
                            lemma_stmts_err_extend(code, lower_init(), stmts, i);
                        }
                        return Err(e);
                    },
                }
                proof {
                    let code = srcv.code@;
                    let vals = var_values(mpre);
                    let vals2 = var_values(mir);
                    let lastv = mir.variables@.last().value;
                    let hvv = stmts[i]->Let_0.value;
                    assert(vals2 =~= vals.push(lastv));
                    lemma_lower_b(code, lscur.names, lscur.rbits, vals, lscur.alloc, hvv);
                    assert forall|j: int| 0 <= j < vals.len() implies readability_bits(mir)[j]
                        == lscur.rbits[j] by {
                        assert(stored_ok(vals, vals[j], j as nat));
                        lemma_bit_readable_grow(vals, vals2, vals[j], j as nat, j as nat);
                    }
                    assert forall|j: int| 0 <= j < vals.len() implies output_bits(mir)[j]
                        == lscur.obits[j] by {
                        assert(stored_ok(vals, vals[j], j as nat));
                        lemma_stored_ok_widen(vals, vals[j], j as nat, vals.len() as nat);
                        lemma_write_target_grow(
                            vals,
                            vals2,
                            vals[j],
                            vals.len() as nat,
                            vals2.len() as nat,
                        );
                    }
                    assert(vals2[vals.len() as int] == lastv);
                    lemma_stored_ok_frame(vals2, vals, lastv, vals.len() as nat);
                    lemma_lowers_readable(code, lscur.names, vals, hvv, lastv);
                    lemma_reads_bit_b(code, lscur.names, lscur.rbits, vals, hvv);
                    lemma_bit_readable_grow(vals, vals2, lastv, vals.len() as nat, vals.len() as nat);
                    lemma_ends_output(code, lscur.names, lscur.obits, vals, hvv, lastv);
                    lemma_write_target_grow(vals, vals2, lastv, vals.len() as nat, vals2.len() as nat);
                    assert(readability_bits(mir) =~= lscur.rbits.push(
                        hv_reads_bit_b(code, lscur.names, lscur.rbits, hvv),
                    ));
                    assert(output_bits(mir) =~= lscur.obits.push(
                        hv_ends_output(code, lscur.names, lscur.obits, hvv),
                    ));
                    assert(stmt_lower_step(code, lscur, stmts[i]) matches Ok(ls2) && ls2 =~= (
                    LowerState {
                        names: var_names(mir),
                        rbits: readability_bits(mir),
                        obits: output_bits(mir),
                        alloc: mir.allocator,
                    }));
                    assert forall|j: int| 0 <= j < i implies action_content(
                        srcv.code@,
                        stmts,
                        j,
                        var_values(mir),
                        mir.actions@,
                    ) by {
                        lemma_prefix_counts_mono(stmts, j, i);
                        assert(action_content(srcv.code@, stmts, j, var_values(mpre), acts_before));
                        let pfx = count_lets(stmts.subrange(0, j)) as int;
                        let names = let_names(stmts.subrange(0, j));
                        let ak = action_flags(stmts.subrange(0, j)).len() as int;
                        let vals_old = var_values(mpre).subrange(0, pfx);
                        let vals_new = var_values(mir).subrange(0, pfx);
                        assert(vals_new =~= vals_old);
                        if stmts[j] is Write {
                            let ws = stmts[j]->Write_0;
                            let oa = mir.actions@[ak]->Output_0;
                            let mv = choose|mv: MirValue|
                                lowers_to(srcv.code@, names, ws.value, mv) && oa.instructions@
                                    == #[trigger] owseq(vals_old, mv, pfx as nat);
                            assert(owseq(vals_new, mv, pfx as nat) == owseq(
                                vals_old,
                                mv,
                                pfx as nat,
                            ));
                        }
                        if stmts[j] is Call {
                            let cs = stmts[j]->Call_0;
                            let cv = HirValue {
                                quote: cs.quote,
                                vtype: HirValueType::Call(HirCall { name: cs.name, args: cs.args }),
                            };
                            let ra = mir.actions@[ak]->Raw_0;
                            let mv = choose|mv: MirValue|
                                lowers_to(srcv.code@, names, cv, mv) && ra.instructions@
                                    == #[trigger] owseq(vals_old, mv, pfx as nat);
                            assert(owseq(vals_new, mv, pfx as nat) == owseq(
                                vals_old,
                                mv,
                                pfx as nat,
                            ));
                        }
                    }
                    assert forall|j: int| 0 <= j < i + 1 implies action_content(
                        srcv.code@,
                        stmts,
                        j,
                        var_values(mir),
                        mir.actions@,
                    ) by {
                        if j < i {
                        } else {
                            assert(stmts[j] is Let);
                        }
                    }
                    assert(var_names(mir) =~= names_before.push(mir.variables@.last().name));
                    assert(let_names(stmts.subrange(0, i + 1)) =~= let_names(
                        stmts.subrange(0, i),
                    ).push(stmts[i]->Let_0.name));
                    assert(action_flags(stmts.subrange(0, i + 1)) =~= action_flags(
                        stmts.subrange(0, i),
                    ));
                    assert forall|k: int|
                        0 <= k < mir.actions@.len() implies action_normalized(
                        #[trigger] mir.actions@[k],
                    ) by {
                        assert(mir.actions@[k] == acts_before[k]);
                    }
                }
            },
            HirStatement::Write(s) => {
                match transform_write(&mut mir, s) {
                    Ok(()) => (),
                    Err(e) => {
                        proof {
                            let code = srcv.code@;
                            lemma_resolve_name_char(
                                code,
                                lscur.names,
                                name_text(code, stmts[i]->Write_0.name),
                            );
                            lemma_lower_b(
                                code,
                                lscur.names,
                                lscur.rbits,
                                var_values(mpre),
                                lscur.alloc,
                                stmts[i]->Write_0.value,
                            );
                            lemma_reads_bit_b(
                                code,
                                lscur.names,
                                lscur.rbits,
                                var_values(mpre),
                                stmts[i]->Write_0.value,
                            );
                            assert(stmts_lower_spec(code, lower_init(), stmts.subrange(0, i + 1))
                                == Err::<LowerState, Error>(e));
                            lemma_stmts_err_extend(code, lower_init(), stmts, i);
                        }
                        return Err(e);
                    },
                }
                proof {
                    let code = srcv.code@;
                    let vals = var_values(mpre);
                    let hvv = stmts[i]->Write_0.value;
                    lemma_resolve_name_char(
                        code,
                        lscur.names,
                        name_text(code, stmts[i]->Write_0.name),
                    );
                    lemma_lower_b(code, lscur.names, lscur.rbits, vals, lscur.alloc, hvv);
                    lemma_reads_bit_b(code, lscur.names, lscur.rbits, vals, hvv);
                    assert(var_values(mir) =~= vals);
                    assert(readability_bits(mir) =~= lscur.rbits);
                    assert(output_bits(mir) =~= lscur.obits);
                    assert(stmt_lower_step(code, lscur, stmts[i]) matches Ok(ls2) && ls2 =~= (
                    LowerState {
                        names: var_names(mir),
                        rbits: readability_bits(mir),
                        obits: output_bits(mir),
                        alloc: mir.allocator,
                    }));
                    assert(var_names(mir) =~= names_before);
                    assert(let_names(stmts.subrange(0, i + 1)) =~= let_names(
                        stmts.subrange(0, i),
                    ));
                    assert(action_flags(stmts.subrange(0, i + 1)) =~= action_flags(
                        stmts.subrange(0, i),
                    ).push(true));
                    assert forall|j: int| 0 <= j < i implies action_content(
                        srcv.code@,
                        stmts,
                        j,
                        var_values(mir),
                        mir.actions@,
                    ) by {
                        lemma_prefix_counts_mono(stmts, j, i);
                        assert(action_content(srcv.code@, stmts, j, var_values(mpre), acts_before));
                        let pfx = count_lets(stmts.subrange(0, j)) as int;
                        let names = let_names(stmts.subrange(0, j));
                        let ak = action_flags(stmts.subrange(0, j)).len() as int;
                        let vals_old = var_values(mpre).subrange(0, pfx);
                        let vals_new = var_values(mir).subrange(0, pfx);
                        assert(vals_new =~= vals_old);
                        if 0 <= ak < acts_before.len() {
                            assert(mir.actions@[ak] == acts_before[ak]);
                        }
                        if stmts[j] is Write {
                            let ws = stmts[j]->Write_0;
                            let oa = mir.actions@[ak]->Output_0;
                            let mv = choose|mv: MirValue|
                                lowers_to(srcv.code@, names, ws.value, mv) && oa.instructions@
                                    == #[trigger] owseq(vals_old, mv, pfx as nat);
                            assert(owseq(vals_new, mv, pfx as nat) == owseq(
                                vals_old,
                                mv,
                                pfx as nat,
                            ));
                        }
                        if stmts[j] is Call {
                            let cs = stmts[j]->Call_0;
                            let cv = HirValue {
                                quote: cs.quote,
                                vtype: HirValueType::Call(HirCall { name: cs.name, args: cs.args }),
                            };
                            let ra = mir.actions@[ak]->Raw_0;
                            let mv = choose|mv: MirValue|
                                lowers_to(srcv.code@, names, cv, mv) && ra.instructions@
                                    == #[trigger] owseq(vals_old, mv, pfx as nat);
                            assert(owseq(vals_new, mv, pfx as nat) == owseq(
                                vals_old,
                                mv,
                                pfx as nat,
                            ));
                        }
                    }
                    assert(action_content(
                        srcv.code@,
                        stmts,
                        i,
                        var_values(mir),
                        mir.actions@,
                    )) by {
                        let pfx = count_lets(stmts.subrange(0, i)) as int;
                        assert(pfx == var_values(mpre).len());
                        assert(var_values(mir).subrange(0, pfx) =~= var_values(mpre));
                        assert(let_names(stmts.subrange(0, i)) == var_names(mpre));
                        assert(action_flags(stmts.subrange(0, i)).len() == acts_before.len());
                        assert(mir.actions@[acts_before.len() as int] == mir.actions@.last());
                    }
                    assert forall|j: int| 0 <= j < i + 1 implies action_content(
                        srcv.code@,
                        stmts,
                        j,
                        var_values(mir),
                        mir.actions@,
                    ) by {
                    }
                    assert forall|k: int|
                        0 <= k < mir.actions@.len() implies ((#[trigger] mir.actions@[k])
                        is Output <==> action_flags(stmts.subrange(0, i + 1))[k]) by {
                        if k < acts_before.len() {
                            assert(mir.actions@[k] == acts_before[k]);
                        }
                    }
                    assert(action_normalized(mir.actions@.last()));
                    assert forall|k: int|
                        0 <= k < mir.actions@.len() implies action_normalized(
                        #[trigger] mir.actions@[k],
                    ) by {
                        if k < acts_before.len() {
                            assert(mir.actions@[k] == acts_before[k]);
                        } else {
                            assert(mir.actions@[k] == mir.actions@.last());
                        }
                    }
                }
            },
            HirStatement::Call(s) => {
                match transform_call(&mut mir, s) {
                    Ok(()) => (),
                    Err(e) => {
                        proof {
                            let code = srcv.code@;
                            let vals = var_values(mpre);
                            let cargs = stmts[i]->Call_0.args@;
                            lemma_lower_values_b(
                                code,
                                lscur.names,
                                lscur.rbits,
                                vals,
                                lscur.alloc,
                                cargs,
                            );
                            if cargs.len() == 2 {
                                lemma_reads_bit_b(code, lscur.names, lscur.rbits, vals, cargs[0]);
                                lemma_reads_bit_b(code, lscur.names, lscur.rbits, vals, cargs[1]);
                            }
                            assert(stmts_lower_spec(code, lower_init(), stmts.subrange(0, i + 1))
                                == Err::<LowerState, Error>(e));
                            lemma_stmts_err_extend(code, lower_init(), stmts, i);
                        }
                        return Err(e);
                    },
                }
                proof {
                    let code = srcv.code@;
                    let vals = var_values(mpre);
                    let cargs = stmts[i]->Call_0.args@;
                    lemma_lower_values_b(code, lscur.names, lscur.rbits, vals, lscur.alloc, cargs);
                    if cargs.len() == 2 {
                        lemma_reads_bit_b(code, lscur.names, lscur.rbits, vals, cargs[0]);
                        lemma_reads_bit_b(code, lscur.names, lscur.rbits, vals, cargs[1]);
                    }
                    assert(var_values(mir) =~= vals);
                    assert(readability_bits(mir) =~= lscur.rbits);
                    assert(output_bits(mir) =~= lscur.obits);
                    assert(stmt_lower_step(code, lscur, stmts[i]) matches Ok(ls2) && ls2 =~= (
                    LowerState {
                        names: var_names(mir),
                        rbits: readability_bits(mir),
                        obits: output_bits(mir),
                        alloc: mir.allocator,
                    }));
                    assert(var_names(mir) =~= names_before);
                    assert(let_names(stmts.subrange(0, i + 1)) =~= let_names(
                        stmts.subrange(0, i),
                    ));
                    assert(action_flags(stmts.subrange(0, i + 1)) =~= action_flags(
                        stmts.subrange(0, i),
                    ).push(false));
                    assert forall|j: int| 0 <= j < i implies action_content(
                        srcv.code@,
                        stmts,
                        j,
                        var_values(mir),
                        mir.actions@,
                    ) by {
                        lemma_prefix_counts_mono(stmts, j, i);
                        assert(action_content(srcv.code@, stmts, j, var_values(mpre), acts_before));
                        let pfx = count_lets(stmts.subrange(0, j)) as int;
                        let names = let_names(stmts.subrange(0, j));
                        let ak = action_flags(stmts.subrange(0, j)).len() as int;
                        let vals_old = var_values(mpre).subrange(0, pfx);
                        let vals_new = var_values(mir).subrange(0, pfx);
                        assert(vals_new =~= vals_old);
                        if 0 <= ak < acts_before.len() {
                            assert(mir.actions@[ak] == acts_before[ak]);
                        }
                        if stmts[j] is Write {
                            let ws = stmts[j]->Write_0;
                            let oa = mir.actions@[ak]->Output_0;
                            let mv = choose|mv: MirValue|
                                lowers_to(srcv.code@, names, ws.value, mv) && oa.instructions@
                                    == #[trigger] owseq(vals_old, mv, pfx as nat);
                            assert(owseq(vals_new, mv, pfx as nat) == owseq(
                                vals_old,
                                mv,
                                pfx as nat,
                            ));
                        }
                        if stmts[j] is Call {
                            let cs = stmts[j]->Call_0;
                            let cv = HirValue {
                                quote: cs.quote,
                                vtype: HirValueType::Call(HirCall { name: cs.name, args: cs.args }),
                            };
                            let ra = mir.actions@[ak]->Raw_0;
                            let mv = choose|mv: MirValue|
                                lowers_to(srcv.code@, names, cv, mv) && ra.instructions@
                                    == #[trigger] owseq(vals_old, mv, pfx as nat);
                            assert(owseq(vals_new, mv, pfx as nat) == owseq(
                                vals_old,
                                mv,
                                pfx as nat,
                            ));
                        }
                    }
                    assert(action_content(
                        srcv.code@,
                        stmts,
                        i,
                        var_values(mir),
                        mir.actions@,
                    )) by {
                        let pfx = count_lets(stmts.subrange(0, i)) as int;
                        assert(pfx == var_values(mpre).len());
                        assert(var_values(mir).subrange(0, pfx) =~= var_values(mpre));
                        assert(let_names(stmts.subrange(0, i)) == var_names(mpre));
                        assert(action_flags(stmts.subrange(0, i)).len() == acts_before.len());
                        assert(mir.actions@[acts_before.len() as int] == mir.actions@.last());
                    }
                    assert forall|j: int| 0 <= j < i + 1 implies action_content(
                        srcv.code@,
                        stmts,
                        j,
                        var_values(mir),
                        mir.actions@,
                    ) by {
                    }
                    assert forall|k: int|
                        0 <= k < mir.actions@.len() implies ((#[trigger] mir.actions@[k])
                        is Output <==> action_flags(stmts.subrange(0, i + 1))[k]) by {
                        if k < acts_before.len() {
                            assert(mir.actions@[k] == acts_before[k]);
                        }
                    }
                    assert(action_normalized(mir.actions@.last()));
                    assert forall|k: int|
                        0 <= k < mir.actions@.len() implies action_normalized(
                        #[trigger] mir.actions@[k],
                    ) by {
                        if k < acts_before.len() {
                            assert(mir.actions@[k] == acts_before[k]);
                        } else {
                            assert(mir.actions@[k] == mir.actions@.last());
                        }
                    }
                }
            },
        }
        done = done + 1;
    }
}

} // verus!

verus! {

/// The slot a name resolves to: the most recent binding whose name text
/// equals `name`, if any.
pub open spec fn resolve_name(code: Seq<u8>, names: Seq<Quote>, name: Seq<u8>) -> Option<int>
    decreases names.len(),
{
    if names.len() == 0 {
        None
    } else if name_text(code, names.last()) == name {
        Some(names.len() - 1)
    } else {
        resolve_name(code, names.drop_last(), name)
    }
}

/// Resolution finds exactly the highest matching slot: a hit matches and
/// nothing later does; a miss means nothing matches at all.
pub proof fn lemma_resolve_name_char(code: Seq<u8>, names: Seq<Quote>, name: Seq<u8>)
    ensures
        match resolve_name(code, names, name) {
            Some(i) => {
                &&& 0 <= i < names.len()
                &&& name_text(code, names[i]) == name
                &&& forall|j: int|
                    i < j < names.len() ==> name_text(code, #[trigger] names[j]) != name
            },
            None => forall|j: int|
                0 <= j < names.len() ==> name_text(code, #[trigger] names[j]) != name,
        },
    decreases names.len(),
{
    if names.len() > 0 && name_text(code, names.last()) != name {
        lemma_resolve_name_char(code, names.drop_last(), name);
        assert forall|j: int| 0 <= j < names.len() - 1 implies names.drop_last()[j] == names[j]
            by {}
    }
}

/// Whether the lowering of a value reads as a bit, predicted from the parse
/// tree and the current bindings: literals do not, address literals do,
/// boolean nodes follow their children, a name follows its binding's value,
/// and a builtin call follows what the builtin returns (a memory bit or a
/// latch sequence reads as a bit; byte-class and counter allocations do
/// not).
pub open spec fn hv_bit_readable(
    code: Seq<u8>,
    names: Seq<Quote>,
    vals: Seq<MirValue>,
    hv: HirValue,
) -> bool
    decreases hv,
{
    match hv.vtype {
        HirValueType::Number(_) => false,
        HirValueType::Bool(_) => false,
        HirValueType::BitAddress(_) => true,
        HirValueType::Not(x) => hv_bit_readable(code, names, vals, x.value),
        HirValueType::And(x) => hv_bit_readable(code, names, vals, x.left) && hv_bit_readable(
            code,
            names,
            vals,
            x.right,
        ),
        HirValueType::Or(x) => hv_bit_readable(code, names, vals, x.left) && hv_bit_readable(
            code,
            names,
            vals,
            x.right,
        ),
        HirValueType::Xor(x) => hv_bit_readable(code, names, vals, x.left) && hv_bit_readable(
            code,
            names,
            vals,
            x.right,
        ),
        HirValueType::VarRef(_) => match resolve_name(code, names, name_text(code, hv.quote)) {
            Some(i) => 0 <= i < vals.len() && crate::mir::value::bit_readable(
                vals,
                vals[i],
                i as nat,
            ),
            None => false,
        },
        HirValueType::Call(c) => match builtin_kind(name_text(code, c.name)) {
            Some(BuiltinKind::Alloc1) => true,
            Some(BuiltinKind::Rs) => true,
            Some(BuiltinKind::Sr) => true,
            Some(_) => false,
            None => false,
        },
    }
}

/// A lowered value reads as a bit exactly when its parse tree predicts it.
pub proof fn lemma_lowers_readable(
    code: Seq<u8>,
    names: Seq<Quote>,
    vals: Seq<MirValue>,
    hv: HirValue,
    mv: MirValue,
)
    requires
        lowers_to(code, names, hv, mv),
        names.len() == vals.len(),
    ensures
        crate::mir::value::bit_readable(vals, mv, vals.len() as nat) == hv_bit_readable(
            code,
            names,
            vals,
            hv,
        ),
    decreases hv,
{
    if hv.vtype is Not {
        let ihv = hv.vtype->Not_0.value;
        let imv = mv->Not_0.value;
        lemma_lowers_readable(code, names, vals, ihv, imv);
    } else if hv.vtype is And {
        let hl = hv.vtype->And_0.left;
        let hr = hv.vtype->And_0.right;
        let ml = mv->And_0.left;
        let mr = mv->And_0.right;
        lemma_lowers_readable(code, names, vals, hl, ml);
        lemma_lowers_readable(code, names, vals, hr, mr);
    } else if hv.vtype is Or {
        let hl = hv.vtype->Or_0.left;
        let hr = hv.vtype->Or_0.right;
        let ml = mv->Or_0.left;
        let mr = mv->Or_0.right;
        lemma_lowers_readable(code, names, vals, hl, ml);
        lemma_lowers_readable(code, names, vals, hr, mr);
    } else if hv.vtype is Xor {
        let hl = hv.vtype->Xor_0.left;
        let hr = hv.vtype->Xor_0.right;
        let ml = mv->Xor_0.left;
        let mr = mv->Xor_0.right;
        lemma_lowers_readable(code, names, vals, hl, ml);
        lemma_lowers_readable(code, names, vals, hr, mr);
    } else if hv.vtype is VarRef {
        let name = name_text(code, hv.quote);
        let r = mv->VarRef_0.index;
        lemma_resolve_name_char(code, names, name);
        // both sides pick the same slot: the highest match
        match resolve_name(code, names, name) {
            Some(i) => {
                assert(i == r as int);
            },
            None => {
                assert(false);
            },
        }
    }
}

/// Success or first error of lowering one value, with the allocator it
/// leaves behind: literals and resolvable names lower in place; an address
/// literal needs a known prefix; boolean nodes lower left to right; a call
/// needs a known builtin, lowered arguments, the builtin's own argument
/// checks, and room in the allocator.
pub open spec fn lower_value_spec(
    code: Seq<u8>,
    names: Seq<Quote>,
    vals: Seq<MirValue>,
    a: MirAllocator,
    hv: HirValue,
) -> Result<MirAllocator, Error>
    decreases hv,
{
    match hv.vtype {
        HirValueType::Number(_) => Ok(a),
        HirValueType::Bool(_) => Ok(a),
        HirValueType::BitAddress(x) => if prefix_input(x.prefix) || prefix_output(x.prefix) {
            Ok(a)
        } else {
            Err(Error { quote: hv.quote, reason: Reason::UnknownBitAddressType })
        },
        HirValueType::Not(x) => lower_value_spec(code, names, vals, a, x.value),
        HirValueType::And(x) => match lower_value_spec(code, names, vals, a, x.left) {
            Err(e) => Err(e),
            Ok(a1) => lower_value_spec(code, names, vals, a1, x.right),
        },
        HirValueType::Or(x) => match lower_value_spec(code, names, vals, a, x.left) {
            Err(e) => Err(e),
            Ok(a1) => lower_value_spec(code, names, vals, a1, x.right),
        },
        HirValueType::Xor(x) => match lower_value_spec(code, names, vals, a, x.left) {
            Err(e) => Err(e),
            Ok(a1) => lower_value_spec(code, names, vals, a1, x.right),
        },
        HirValueType::VarRef(_) => match resolve_name(code, names, name_text(code, hv.quote)) {
            Some(_) => Ok(a),
            None => Err(Error { quote: hv.quote, reason: Reason::UnknownVariable }),
        },
        HirValueType::Call(c) => match builtin_kind(name_text(code, c.name)) {
            None => Err(Error { quote: c.name, reason: Reason::UnknownFunction }),
            Some(kind) => match lower_values_spec(code, names, vals, a, c.args@) {
                Err(e) => Err(e),
                Ok(a1) => builtin_spec_result(kind, a1, code, names, vals, c.args@, hv.quote),
            },
        },
    }
}

/// Success or first error of lowering an argument list left to right.
pub open spec fn lower_values_spec(
    code: Seq<u8>,
    names: Seq<Quote>,
    vals: Seq<MirValue>,
    a: MirAllocator,
    hvs: Seq<HirValue>,
) -> Result<MirAllocator, Error>
    decreases hvs,
{
    if hvs.len() == 0 {
        Ok(a)
    } else {
        match lower_value_spec(code, names, vals, a, hvs[0]) {
            Err(e) => Err(e),
            Ok(a1) => lower_values_spec(code, names, vals, a1, hvs.drop_first()),
        }
    }
}

/// Success or error of the builtin call itself, after its arguments have
/// lowered: the exact argument-count and readability checks and the
/// allocator's room, in the order the builtin applies them.
pub open spec fn builtin_spec_result(
    kind: BuiltinKind,
    a: MirAllocator,
    code: Seq<u8>,
    names: Seq<Quote>,
    vals: Seq<MirValue>,
    args: Seq<HirValue>,
    quote: Quote,
) -> Result<MirAllocator, Error> {
    match kind {
        BuiltinKind::Alloc1 => if args.len() != 0 {
            Err(Error { quote, reason: Reason::InvalidArgsCount })
        } else if can_alloc_bit_spec(a) {
            Ok(crate::mir::builtin::alloc_bit_after(a))
        } else {
            Err(Error { quote, reason: Reason::OutOfMemory })
        },
        BuiltinKind::Alloc8 => if args.len() != 0 {
            Err(Error { quote, reason: Reason::InvalidArgsCount })
        } else if crate::mir::usage_spec(a) < 65535 {
            Ok(MirAllocator { allocated_bytes: (a.allocated_bytes + 1) as usize, ..a })
        } else {
            Err(Error { quote, reason: Reason::OutOfMemory })
        },
        BuiltinKind::Alloc16 => if args.len() != 0 {
            Err(Error { quote, reason: Reason::InvalidArgsCount })
        } else if crate::mir::usage_spec(a) < 65534 {
            Ok(MirAllocator { allocated_bytes: (a.allocated_bytes + 2) as usize, ..a })
        } else {
            Err(Error { quote, reason: Reason::OutOfMemory })
        },
        BuiltinKind::Alloc32 => if args.len() != 0 {
            Err(Error { quote, reason: Reason::InvalidArgsCount })
        } else if crate::mir::usage_spec(a) < 65532 {
            Ok(MirAllocator { allocated_bytes: (a.allocated_bytes + 4) as usize, ..a })
        } else {
            Err(Error { quote, reason: Reason::OutOfMemory })
        },
        BuiltinKind::Counter => if args.len() != 0 {
            Err(Error { quote, reason: Reason::InvalidArgsCount })
        } else if a.allocated_counters < 65535 {
            Ok(MirAllocator { allocated_counters: (a.allocated_counters + 1) as u16, ..a })
        } else {
            Err(Error { quote, reason: Reason::OutOfMemory })
        },
        BuiltinKind::Rs | BuiltinKind::Sr => if args.len() != 2 {
            Err(Error { quote, reason: Reason::InvalidArgsCount })
        } else if !hv_bit_readable(code, names, vals, args[0]) || !hv_bit_readable(
            code,
            names,
            vals,
            args[1],
        ) {
            Err(Error { quote, reason: Reason::InvalidArgType })
        } else if can_alloc_bit_spec(a) {
            Ok(crate::mir::builtin::alloc_bit_after(a))
        } else {
            Err(Error { quote, reason: Reason::OutOfMemory })
        },
    }
}


/// Whether a builtin's returned value reads as a bit: a fresh memory bit or
/// a latch sequence does; byte-class and counter allocations do not.
pub open spec fn builtin_reads_bit(kind: BuiltinKind) -> bool {
    kind == BuiltinKind::Alloc1 || kind == BuiltinKind::Rs || kind == BuiltinKind::Sr
}

/// Success or first error of a write statement: the name must resolve, the
/// new value must lower, the resolved binding's value chain must end on a
/// physical output, and the new value must read as a bit.
pub open spec fn write_stmt_spec(
    code: Seq<u8>,
    names: Seq<Quote>,
    vals: Seq<MirValue>,
    a: MirAllocator,
    name: Quote,
    value: HirValue,
) -> Result<MirAllocator, Error> {
    match resolve_name(code, names, name_text(code, name)) {
        None => Err(Error { quote: name, reason: Reason::UnknownVariable }),
        Some(i) => match lower_value_spec(code, names, vals, a, value) {
            Err(e) => Err(e),
            Ok(a1) => {
                let t = crate::mir::value::write_target(vals, vals[i], vals.len() as nat);
                if (t matches MirValue::Address(ad) && ad.atype == MirAddressType::PhysicalOutput1)
                    && hv_bit_readable(code, names, vals, value) {
                    Ok(a1)
                } else {
                    Err(
                        Error {
                            quote: value.quote,
                            reason: crate::mir::value::write_reject_reason(vals, t),
                        },
                    )
                }
            },
        },
    }
}

/// Success or first error of a bare call statement: the name must be a
/// builtin, the arguments must lower, the builtin's own checks must pass,
/// and the returned value must read as a bit.
pub open spec fn call_stmt_spec(
    code: Seq<u8>,
    names: Seq<Quote>,
    vals: Seq<MirValue>,
    a: MirAllocator,
    name: Quote,
    quote: Quote,
    args: Seq<HirValue>,
) -> Result<MirAllocator, Error> {
    match builtin_kind(name_text(code, name)) {
        None => Err(Error { quote: name, reason: Reason::UnknownFunction }),
        Some(kind) => match lower_values_spec(code, names, vals, a, args) {
            Err(e) => Err(e),
            Ok(a1) => match builtin_spec_result(kind, a1, code, names, vals, args, quote) {
                Err(e) => Err(e),
                Ok(a2) => if builtin_reads_bit(kind) {
                    Ok(a2)
                } else {
                    Err(Error { quote, reason: Reason::ValueNotBitReadable })
                },
            },
        },
    }
}

} // verus!

verus! {


/// Readability of a value's lowering, predicted per binding slot: `rbits[j]`
/// says whether binding `j`'s value reads as a bit.
pub open spec fn hv_reads_bit_b(
    code: Seq<u8>,
    names: Seq<Quote>,
    rbits: Seq<bool>,
    hv: HirValue,
) -> bool
    decreases hv,
{
    match hv.vtype {
        HirValueType::Number(_) => false,
        HirValueType::Bool(_) => false,
        HirValueType::BitAddress(_) => true,
        HirValueType::Not(x) => hv_reads_bit_b(code, names, rbits, x.value),
        HirValueType::And(x) => hv_reads_bit_b(code, names, rbits, x.left) && hv_reads_bit_b(
            code,
            names,
            rbits,
            x.right,
        ),
        HirValueType::Or(x) => hv_reads_bit_b(code, names, rbits, x.left) && hv_reads_bit_b(
            code,
            names,
            rbits,
            x.right,
        ),
        HirValueType::Xor(x) => hv_reads_bit_b(code, names, rbits, x.left) && hv_reads_bit_b(
            code,
            names,
            rbits,
            x.right,
        ),
        HirValueType::VarRef(_) => match resolve_name(code, names, name_text(code, hv.quote)) {
            Some(i) => 0 <= i < rbits.len() && rbits[i],
            None => false,
        },
        HirValueType::Call(c) => match builtin_kind(name_text(code, c.name)) {
            Some(BuiltinKind::Alloc1) => true,
            Some(BuiltinKind::Rs) => true,
            Some(BuiltinKind::Sr) => true,
            Some(_) => false,
            None => false,
        },
    }
}

/// Whether a value's lowering is a chain that ends on a physical output:
/// `obits[j]` says whether binding `j`'s value chain does.
pub open spec fn hv_ends_output(
    code: Seq<u8>,
    names: Seq<Quote>,
    obits: Seq<bool>,
    hv: HirValue,
) -> bool {
    match hv.vtype {
        HirValueType::BitAddress(x) => prefix_output(x.prefix),
        HirValueType::VarRef(_) => match resolve_name(code, names, name_text(code, hv.quote)) {
            Some(i) => 0 <= i < obits.len() && obits[i],
            None => false,
        },
        _ => false,
    }
}

/// Lowering success and allocator evolution of one value, over predicted
/// readability bits.
pub open spec fn lower_value_spec_b(
    code: Seq<u8>,
    names: Seq<Quote>,
    rbits: Seq<bool>,
    a: MirAllocator,
    hv: HirValue,
) -> Result<MirAllocator, Error>
    decreases hv,
{
    match hv.vtype {
        HirValueType::Number(_) => Ok(a),
        HirValueType::Bool(_) => Ok(a),
        HirValueType::BitAddress(x) => if prefix_input(x.prefix) || prefix_output(x.prefix) {
            Ok(a)
        } else {
            Err(Error { quote: hv.quote, reason: Reason::UnknownBitAddressType })
        },
        HirValueType::Not(x) => lower_value_spec_b(code, names, rbits, a, x.value),
        HirValueType::And(x) => match lower_value_spec_b(code, names, rbits, a, x.left) {
            Err(e) => Err(e),
            Ok(a1) => lower_value_spec_b(code, names, rbits, a1, x.right),
        },
        HirValueType::Or(x) => match lower_value_spec_b(code, names, rbits, a, x.left) {
            Err(e) => Err(e),
            Ok(a1) => lower_value_spec_b(code, names, rbits, a1, x.right),
        },
        HirValueType::Xor(x) => match lower_value_spec_b(code, names, rbits, a, x.left) {
            Err(e) => Err(e),
            Ok(a1) => lower_value_spec_b(code, names, rbits, a1, x.right),
        },
        HirValueType::VarRef(_) => match resolve_name(code, names, name_text(code, hv.quote)) {
            Some(_) => Ok(a),
            None => Err(Error { quote: hv.quote, reason: Reason::UnknownVariable }),
        },
        HirValueType::Call(c) => match builtin_kind(name_text(code, c.name)) {
            None => Err(Error { quote: c.name, reason: Reason::UnknownFunction }),
            Some(kind) => match lower_values_spec_b(code, names, rbits, a, c.args@) {
                Err(e) => Err(e),
                Ok(a1) => builtin_spec_result_b(kind, a1, code, names, rbits, c.args@, hv.quote),
            },
        },
    }
}

pub open spec fn lower_values_spec_b(
    code: Seq<u8>,
    names: Seq<Quote>,
    rbits: Seq<bool>,
    a: MirAllocator,
    hvs: Seq<HirValue>,
) -> Result<MirAllocator, Error>
    decreases hvs,
{
    if hvs.len() == 0 {
        Ok(a)
    } else {
        match lower_value_spec_b(code, names, rbits, a, hvs[0]) {
            Err(e) => Err(e),
            Ok(a1) => lower_values_spec_b(code, names, rbits, a1, hvs.drop_first()),
        }
    }
}

pub open spec fn builtin_spec_result_b(
    kind: BuiltinKind,
    a: MirAllocator,
    code: Seq<u8>,
    names: Seq<Quote>,
    rbits: Seq<bool>,
    args: Seq<HirValue>,
    quote: Quote,
) -> Result<MirAllocator, Error> {
    if kind == BuiltinKind::Rs || kind == BuiltinKind::Sr {
        if args.len() != 2 {
            Err(Error { quote, reason: Reason::InvalidArgsCount })
        } else if !hv_reads_bit_b(code, names, rbits, args[0]) || !hv_reads_bit_b(
            code,
            names,
            rbits,
            args[1],
        ) {
            Err(Error { quote, reason: Reason::InvalidArgType })
        } else if can_alloc_bit_spec(a) {
            Ok(crate::mir::builtin::alloc_bit_after(a))
        } else {
            Err(Error { quote, reason: Reason::OutOfMemory })
        }
    } else {
        builtin_spec_result(kind, a, code, names, Seq::empty(), args, quote)
    }
}

/// The per-binding summaries of a program state: readability and
/// output-chain bits.
pub open spec fn readability_bits(m: Mir) -> Seq<bool> {
    Seq::new(
        var_values(m).len(),
        |j: int|
            crate::mir::value::bit_readable(var_values(m), var_values(m)[j], j as nat),
    )
}

pub open spec fn output_bits(m: Mir) -> Seq<bool> {
    Seq::new(
        var_values(m).len(),
        |j: int|
            {
                let t = crate::mir::value::write_target(
                    var_values(m),
                    var_values(m)[j],
                    var_values(m).len() as nat,
                );
                t matches MirValue::Address(ad) && ad.atype == MirAddressType::PhysicalOutput1
            },
    )
}

} // verus!

verus! {

/// Growing the binding list (and relaxing the slot bound) does not change
/// the readability of a value fit for the old bound.
pub proof fn lemma_bit_readable_grow(
    vals: Seq<MirValue>,
    vals2: Seq<MirValue>,
    v: MirValue,
    b: nat,
    b2: nat,
)
    requires
        vals2.len() >= vals.len(),
        forall|j: int| 0 <= j < vals.len() ==> vals2[j] == vals[j],
        crate::mir::value::vars_ok(vals),
        stored_ok(vals, v, b),
        b <= vals.len(),
        b <= b2,
    ensures
        crate::mir::value::bit_readable(vals2, v, b2) == crate::mir::value::bit_readable(
            vals,
            v,
            b,
        ),
    decreases b, v,
{
    if v is VarRef {
        let r = v->VarRef_0.index;
        let target = vals[r as int];
        assert(stored_ok(vals, target, r as nat));
        lemma_bit_readable_grow(vals, vals2, target, r as nat, r as nat);
    } else if v is Not {
        let inner = v->Not_0.value;
        lemma_bit_readable_grow(vals, vals2, inner, b, b2);
    } else if v is And {
        let l = v->And_0.left;
        let rr = v->And_0.right;
        lemma_bit_readable_grow(vals, vals2, l, b, b2);
        lemma_bit_readable_grow(vals, vals2, rr, b, b2);
    } else if v is Or {
        let l = v->Or_0.left;
        let rr = v->Or_0.right;
        lemma_bit_readable_grow(vals, vals2, l, b, b2);
        lemma_bit_readable_grow(vals, vals2, rr, b, b2);
    } else if v is Xor {
        let l = v->Xor_0.left;
        let rr = v->Xor_0.right;
        lemma_bit_readable_grow(vals, vals2, l, b, b2);
        lemma_bit_readable_grow(vals, vals2, rr, b, b2);
    }
}

/// Growing the binding list (and relaxing the slot bound) does not change
/// where a stored value's chain ends.
pub proof fn lemma_write_target_grow(
    vals: Seq<MirValue>,
    vals2: Seq<MirValue>,
    v: MirValue,
    b: nat,
    b2: nat,
)
    requires
        vals2.len() >= vals.len(),
        forall|j: int| 0 <= j < vals.len() ==> vals2[j] == vals[j],
        crate::mir::value::vars_ok(vals),
        stored_ok(vals, v, b),
        b <= vals.len(),
        b <= b2,
    ensures
        crate::mir::value::write_target(vals2, v, b2) == crate::mir::value::write_target(
            vals,
            v,
            b,
        ),
    decreases b, v,
{
    if v is VarRef {
        let r = v->VarRef_0.index;
        let target = vals[r as int];
        assert(stored_ok(vals, target, r as nat));
        lemma_write_target_grow(vals, vals2, target, r as nat, r as nat);
    }
}

/// The slot-bit prediction of readability agrees with the value-level one
/// when the bits summarize the bindings.
pub proof fn lemma_reads_bit_b(
    code: Seq<u8>,
    names: Seq<Quote>,
    rbits: Seq<bool>,
    vals: Seq<MirValue>,
    hv: HirValue,
)
    requires
        rbits.len() == vals.len(),
        names.len() == vals.len(),
        forall|j: int|
            0 <= j < vals.len() ==> rbits[j] == crate::mir::value::bit_readable(
                vals,
                #[trigger] vals[j],
                j as nat,
            ),
    ensures
        hv_reads_bit_b(code, names, rbits, hv) == hv_bit_readable(code, names, vals, hv),
    decreases hv,
{
    if hv.vtype is Not {
        lemma_reads_bit_b(code, names, rbits, vals, hv.vtype->Not_0.value);
    } else if hv.vtype is And {
        lemma_reads_bit_b(code, names, rbits, vals, hv.vtype->And_0.left);
        lemma_reads_bit_b(code, names, rbits, vals, hv.vtype->And_0.right);
    } else if hv.vtype is Or {
        lemma_reads_bit_b(code, names, rbits, vals, hv.vtype->Or_0.left);
        lemma_reads_bit_b(code, names, rbits, vals, hv.vtype->Or_0.right);
    } else if hv.vtype is Xor {
        lemma_reads_bit_b(code, names, rbits, vals, hv.vtype->Xor_0.left);
        lemma_reads_bit_b(code, names, rbits, vals, hv.vtype->Xor_0.right);
    }
}

/// The slot-bit lowering mirror agrees with the value-level one.
pub proof fn lemma_lower_b(
    code: Seq<u8>,
    names: Seq<Quote>,
    rbits: Seq<bool>,
    vals: Seq<MirValue>,
    a: MirAllocator,
    hv: HirValue,
)
    requires
        rbits.len() == vals.len(),
        names.len() == vals.len(),
        forall|j: int|
            0 <= j < vals.len() ==> rbits[j] == crate::mir::value::bit_readable(
                vals,
                #[trigger] vals[j],
                j as nat,
            ),
    ensures
        lower_value_spec_b(code, names, rbits, a, hv) == lower_value_spec(
            code,
            names,
            vals,
            a,
            hv,
        ),
    decreases hv, 1nat,
{
    if hv.vtype is Not {
        lemma_lower_b(code, names, rbits, vals, a, hv.vtype->Not_0.value);
    } else if hv.vtype is And {
        let l = hv.vtype->And_0.left;
        let rr = hv.vtype->And_0.right;
        lemma_lower_b(code, names, rbits, vals, a, l);
        match lower_value_spec(code, names, vals, a, l) {
            Ok(a1) => {
                lemma_lower_b(code, names, rbits, vals, a1, rr);
            },
            Err(_) => {},
        }
    } else if hv.vtype is Or {
        let l = hv.vtype->Or_0.left;
        let rr = hv.vtype->Or_0.right;
        lemma_lower_b(code, names, rbits, vals, a, l);
        match lower_value_spec(code, names, vals, a, l) {
            Ok(a1) => {
                lemma_lower_b(code, names, rbits, vals, a1, rr);
            },
            Err(_) => {},
        }
    } else if hv.vtype is Xor {
        let l = hv.vtype->Xor_0.left;
        let rr = hv.vtype->Xor_0.right;
        lemma_lower_b(code, names, rbits, vals, a, l);
        match lower_value_spec(code, names, vals, a, l) {
            Ok(a1) => {
                lemma_lower_b(code, names, rbits, vals, a1, rr);
            },
            Err(_) => {},
        }
    } else if hv.vtype is Call {
        let c = hv.vtype->Call_0;
        lemma_lower_values_b(code, names, rbits, vals, a, c.args@);
        match lower_values_spec(code, names, vals, a, c.args@) {
            Ok(a1) => {
                if c.args@.len() == 2 {
                    lemma_reads_bit_b(code, names, rbits, vals, c.args@[0]);
                    lemma_reads_bit_b(code, names, rbits, vals, c.args@[1]);
                }
            },
            Err(_) => {},
        }
    }
}

pub proof fn lemma_lower_values_b(
    code: Seq<u8>,
    names: Seq<Quote>,
    rbits: Seq<bool>,
    vals: Seq<MirValue>,
    a: MirAllocator,
    hvs: Seq<HirValue>,
)
    requires
        rbits.len() == vals.len(),
        names.len() == vals.len(),
        forall|j: int|
            0 <= j < vals.len() ==> rbits[j] == crate::mir::value::bit_readable(
                vals,
                #[trigger] vals[j],
                j as nat,
            ),
    ensures
        lower_values_spec_b(code, names, rbits, a, hvs) == lower_values_spec(
            code,
            names,
            vals,
            a,
            hvs,
        ),
    decreases hvs, 0nat,
{
    if hvs.len() > 0 {
        let h = hvs[0];
        lemma_lower_b(code, names, rbits, vals, a, h);
        match lower_value_spec(code, names, vals, a, h) {
            Ok(a1) => {
                lemma_lower_values_b(code, names, rbits, vals, a1, hvs.drop_first());
            },
            Err(_) => {},
        }
    }
}

/// The slot-bit prediction of the chain end agrees with the value-level one
/// when the bits summarize the bindings.
pub proof fn lemma_ends_output(
    code: Seq<u8>,
    names: Seq<Quote>,
    obits: Seq<bool>,
    vals: Seq<MirValue>,
    hv: HirValue,
    mv: MirValue,
)
    requires
        lowers_to(code, names, hv, mv),
        obits.len() == vals.len(),
        names.len() == vals.len(),
        crate::mir::value::vars_ok(vals),
        forall|j: int|
            0 <= j < vals.len() ==> obits[j] == ({
                let t = crate::mir::value::write_target(
                    vals,
                    #[trigger] vals[j],
                    vals.len() as nat,
                );
                t matches MirValue::Address(ad) && ad.atype == MirAddressType::PhysicalOutput1
            }),
    ensures
        hv_ends_output(code, names, obits, hv) == ({
            let t = crate::mir::value::write_target(vals, mv, vals.len() as nat);
            t matches MirValue::Address(ad) && ad.atype == MirAddressType::PhysicalOutput1
        }),
{
    if hv.vtype is VarRef {
        let r = mv->VarRef_0.index;
        let nm = name_text(code, hv.quote);
        lemma_resolve_name_char(code, names, nm);
        match resolve_name(code, names, nm) {
            Some(i) => {
                assert(i == r as int);
            },
            None => {
                assert(false);
            },
        }
        assert(stored_ok(vals, vals[r as int], r as nat));
        lemma_write_target_grow(vals, vals, vals[r as int], r as nat, vals.len() as nat);
    } else if hv.vtype is Call {
        let c = hv.vtype->Call_0;
        match builtin_kind(name_text(code, c.name)) {
            Some(k) => {
                if k == BuiltinKind::Rs || k == BuiltinKind::Sr {
                    assert(mv is Ops);
                } else {
                    assert(mv is Address);
                    assert(!(mv->Address_0.atype == MirAddressType::PhysicalOutput1));
                }
                assert(!(mv is VarRef));
            },
            None => {
                assert(false);
            },
        }
    } else {
        assert(!(mv is VarRef));
    }
}

} // verus!

verus! {

/// The spec-level state of statement lowering: the binding names, the
/// per-binding readability and output-chain summaries, and the allocator.
#[verifier::ext_equal]
pub struct LowerState {
    pub names: Seq<Quote>,
    pub rbits: Seq<bool>,
    pub obits: Seq<bool>,
    pub alloc: MirAllocator,
}

pub open spec fn lower_init() -> LowerState {
    LowerState {
        names: Seq::empty(),
        rbits: Seq::empty(),
        obits: Seq::empty(),
        alloc: (MirAllocator { allocated_bits: 0, allocated_bytes: 0, allocated_counters: 0 }),
    }
}

/// One statement's effect on the lowering state, or its first error: a `let`
/// lowers its value and appends a binding summary; a write must resolve,
/// lower, hit an output chain and read as a bit; a bare call must name a
/// builtin, lower its arguments, pass the builtin's checks and read as a
/// bit.
pub open spec fn stmt_lower_step(code: Seq<u8>, st: LowerState, stmt: HirStatement) -> Result<
    LowerState,
    Error,
> {
    match stmt {
        HirStatement::Let(s) => match lower_value_spec_b(code, st.names, st.rbits, st.alloc,
            s.value) {
            Err(e) => Err(e),
            Ok(a1) => Ok(
                LowerState {
                    names: st.names.push(s.name),
                    rbits: st.rbits.push(hv_reads_bit_b(code, st.names, st.rbits, s.value)),
                    obits: st.obits.push(hv_ends_output(code, st.names, st.obits, s.value)),
                    alloc: a1,
                },
            ),
        },
        HirStatement::Write(s) => match resolve_name(code, st.names, name_text(code, s.name)) {
            None => Err(Error { quote: s.name, reason: Reason::UnknownVariable }),
            Some(i) => match lower_value_spec_b(code, st.names, st.rbits, st.alloc, s.value) {
                Err(e) => Err(e),
                Ok(a1) => {
                    let out = 0 <= i < st.obits.len() && st.obits[i];
                    if out && hv_reads_bit_b(code, st.names, st.rbits, s.value) {
                        Ok(LowerState { alloc: a1, ..st })
                    } else {
                        Err(
                            Error {
                                quote: s.value.quote,
                                reason: if out {
                                    Reason::ValueNotBitReadable
                                } else {
                                    Reason::NoWriteHandler
                                },
                            },
                        )
                    }
                },
            },
        },
        HirStatement::Call(s) => match builtin_kind(name_text(code, s.name)) {
            None => Err(Error { quote: s.name, reason: Reason::UnknownFunction }),
            Some(kind) => match lower_values_spec_b(code, st.names, st.rbits, st.alloc, s.args@) {
                Err(e) => Err(e),
                Ok(a1) => match builtin_spec_result_b(kind, a1, code, st.names, st.rbits, s.args@,
                    s.quote) {
                    Err(e) => Err(e),
                    Ok(a2) => if builtin_reads_bit(kind) {
                        Ok(LowerState { alloc: a2, ..st })
                    } else {
                        Err(Error { quote: s.quote, reason: Reason::ValueNotBitReadable })
                    },
                },
            },
        },
    }
}

/// The whole program's lowering state, or its first error.
pub open spec fn stmts_lower_spec(
    code: Seq<u8>,
    st: LowerState,
    stmts: Seq<HirStatement>,
) -> Result<LowerState, Error>
    decreases stmts.len(),
{
    if stmts.len() == 0 {
        Ok(st)
    } else {
        match stmts_lower_spec(code, st, stmts.drop_last()) {
            Err(e) => Err(e),
            Ok(st1) => stmt_lower_step(code, st1, stmts.last()),
        }
    }
}

/// A lowering that has failed on a statement prefix fails on the whole
/// program with the same error.
pub proof fn lemma_stmts_err_extend(code: Seq<u8>, st: LowerState, stmts: Seq<HirStatement>, i: int)
    requires
        0 <= i < stmts.len(),
        stmts_lower_spec(code, st, stmts.subrange(0, i + 1)) is Err,
    ensures
        stmts_lower_spec(code, st, stmts) == stmts_lower_spec(code, st, stmts.subrange(0, i + 1)),
    decreases stmts.len() - i,
{
    if i + 1 == stmts.len() {
        assert(stmts.subrange(0, i + 1) =~= stmts);
    } else {
        assert(stmts.subrange(0, i + 2).drop_last() =~= stmts.subrange(0, i + 1));
        lemma_stmts_err_extend(code, st, stmts, i + 1);
    }
}

} // verus!

verus! {

/// The allocator a failed lowering leaves behind: everything allocated
/// before the first error remains; nothing is rolled back.
pub open spec fn lower_value_partial(
    code: Seq<u8>,
    names: Seq<Quote>,
    vals: Seq<MirValue>,
    a: MirAllocator,
    hv: HirValue,
) -> MirAllocator
    decreases hv,
{
    match hv.vtype {
        HirValueType::Not(x) => lower_value_partial(code, names, vals, a, x.value),
        HirValueType::And(x) => match lower_value_spec(code, names, vals, a, x.left) {
            Err(_) => lower_value_partial(code, names, vals, a, x.left),
            Ok(a1) => lower_value_partial(code, names, vals, a1, x.right),
        },
        HirValueType::Or(x) => match lower_value_spec(code, names, vals, a, x.left) {
            Err(_) => lower_value_partial(code, names, vals, a, x.left),
            Ok(a1) => lower_value_partial(code, names, vals, a1, x.right),
        },
        HirValueType::Xor(x) => match lower_value_spec(code, names, vals, a, x.left) {
            Err(_) => lower_value_partial(code, names, vals, a, x.left),
            Ok(a1) => lower_value_partial(code, names, vals, a1, x.right),
        },
        HirValueType::Call(c) => match builtin_kind(name_text(code, c.name)) {
            None => a,
            Some(kind) => match lower_values_spec(code, names, vals, a, c.args@) {
                Err(_) => lower_values_partial(code, names, vals, a, c.args@),
                Ok(a1) => match builtin_spec_result(kind, a1, code, names, vals, c.args@,
                    hv.quote) {
                    Err(_) => a1,
                    Ok(a2) => a2,
                },
            },
        },
        _ => a,
    }
}

pub open spec fn lower_values_partial(
    code: Seq<u8>,
    names: Seq<Quote>,
    vals: Seq<MirValue>,
    a: MirAllocator,
    hvs: Seq<HirValue>,
) -> MirAllocator
    decreases hvs,
{
    if hvs.len() == 0 {
        a
    } else {
        match lower_value_spec(code, names, vals, a, hvs[0]) {
            Err(_) => lower_value_partial(code, names, vals, a, hvs[0]),
            Ok(a1) => lower_values_partial(code, names, vals, a1, hvs.drop_first()),
        }
    }
}

} // verus!
