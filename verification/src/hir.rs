//! The high-level representation: a parsed program as an ordered sequence of
//! statements over spanned value expressions.

use vstd::prelude::*;
use std::rc::Rc;

use crate::util::{Quote, Source};

verus! {

/// A byte range that lies within a source of length `n`.
pub open spec fn quote_wf(q: Quote, n: nat) -> bool {
    q.start <= q.end <= n
}

/// A non-empty byte range within a source of length `n`, as a name must be.
pub open spec fn name_wf(q: Quote, n: nat) -> bool {
    q.start < q.end && q.end <= n
}

/// A parsed program: the source it was read from and its statements in
/// program order.
#[derive(Debug)]
pub struct Hir {
    pub source: Rc<Source>,
    pub statements: Vec<HirStatement>,
}

impl Hir {
    pub fn new(source: Rc<Source>) -> (r: Hir)
        ensures
            r.source == source,
            r.statements@ =~= Seq::<HirStatement>::empty(),
    {
        Hir { source, statements: Vec::new() }
    }
}

#[derive(Debug)]
pub enum HirStatement {
    Let(HirLetStatement),
    Write(HirWriteStatement),
    Call(HirCallStatement),
}

/// `let name = value;`
#[derive(Debug)]
pub struct HirLetStatement {
    pub quote: Quote,
    pub name: Quote,
    pub value: HirValue,
}

/// `name = value;`
#[derive(Debug)]
pub struct HirWriteStatement {
    pub quote: Quote,
    pub name: Quote,
    pub value: HirValue,
}

/// `name(args, ...);`
#[derive(Debug)]
pub struct HirCallStatement {
    pub quote: Quote,
    pub name: Quote,
    pub args: Vec<HirValue>,
}

/// A spanned value expression.
#[derive(Debug)]
pub struct HirValue {
    pub quote: Quote,
    pub vtype: HirValueType,
}

impl HirValue {
    pub fn new(quote: Quote, vtype: HirValueType) -> (r: HirValue)
        ensures
            r.quote == quote,
            r.vtype == vtype,
    {
        HirValue { quote, vtype }
    }
}

#[derive(Debug)]
pub enum HirValueType {
    Number(HirNumber),
    Bool(HirBool),
    BitAddress(HirBitAddress),
    Not(Box<HirNot>),
    And(Box<HirAnd>),
    Or(Box<HirOr>),
    Xor(Box<HirXor>),
    VarRef(HirVarRef),
    Call(HirCall),
}

/// A number literal.
#[derive(Debug)]
pub struct HirNumber {
    pub value: usize,
}

/// `true`, `false`
#[derive(Debug)]
pub struct HirBool {
    pub value: bool,
}

/// A bit address `prefix`+`ptr`.`bit`, such as `E0.5`; `prefix` is 0 for a
/// raw (unprefixed) address.
#[derive(Debug)]
pub struct HirBitAddress {
    pub prefix: u8,
    pub ptr: u16,
    pub bit: u8,
}

/// `not value`, `!value`
#[derive(Debug)]
pub struct HirNot {
    pub value: HirValue,
}

/// `left and right`, `left & right`
#[derive(Debug)]
pub struct HirAnd {
    pub left: HirValue,
    pub right: HirValue,
}

/// `left or right`, `left | right`
#[derive(Debug)]
pub struct HirOr {
    pub left: HirValue,
    pub right: HirValue,
}

/// `left xor right`, `left ^ right`
#[derive(Debug)]
pub struct HirXor {
    pub left: HirValue,
    pub right: HirValue,
}

/// A reference to a named binding; the name is the value's own quote.
#[derive(Debug)]
pub struct HirVarRef;

/// `name(args, ...)`
#[derive(Debug)]
pub struct HirCall {
    pub name: Quote,
    pub args: Vec<HirValue>,
}

/// Structural well-formedness of a parsed value against a source of length
/// `n`: all spans lie in the source, names are non-empty, and bit indices
/// stay below 8.
pub open spec fn hir_value_wf(v: HirValue, n: nat) -> bool
    decreases v,
{
    quote_wf(v.quote, n) && match v.vtype {
        HirValueType::Number(_) => true,
        HirValueType::Bool(_) => true,
        HirValueType::BitAddress(a) => a.bit <= 7,
        HirValueType::Not(x) => hir_value_wf(x.value, n),
        HirValueType::And(x) => hir_value_wf(x.left, n) && hir_value_wf(x.right, n),
        HirValueType::Or(x) => hir_value_wf(x.left, n) && hir_value_wf(x.right, n),
        HirValueType::Xor(x) => hir_value_wf(x.left, n) && hir_value_wf(x.right, n),
        HirValueType::VarRef(_) => name_wf(v.quote, n),
        HirValueType::Call(c) => name_wf(c.name, n) && hir_args_wf(c.args@, n),
    }
}

pub open spec fn hir_args_wf(args: Seq<HirValue>, n: nat) -> bool
    decreases args,
{
    if args.len() == 0 {
        true
    } else {
        hir_value_wf(args[0], n) && hir_args_wf(args.drop_first(), n)
    }
}

/// All elements of a well-formed argument list are well-formed.
pub proof fn lemma_hir_args_wf_index(args: Seq<HirValue>, n: nat, i: int)
    requires
        hir_args_wf(args, n),
        0 <= i < args.len(),
    ensures
        hir_value_wf(args[i], n),
    decreases args.len(),
{
    if i > 0 {
        lemma_hir_args_wf_index(args.drop_first(), n, i - 1);
    }
}

pub open spec fn hir_statement_wf(st: HirStatement, n: nat) -> bool {
    match st {
        HirStatement::Let(s) => quote_wf(s.quote, n) && name_wf(s.name, n) && hir_value_wf(
            s.value,
            n,
        ),
        HirStatement::Write(s) => quote_wf(s.quote, n) && name_wf(s.name, n) && hir_value_wf(
            s.value,
            n,
        ),
        HirStatement::Call(s) => quote_wf(s.quote, n) && name_wf(s.name, n) && hir_args_wf(
            s.args@,
            n,
        ),
    }
}

/// A whole program is well-formed against its own source.
pub open spec fn hir_wf(hir: Hir) -> bool {
    forall|i: int|
        0 <= i < hir.statements@.len() ==> hir_statement_wf(
            #[trigger] hir.statements@[i],
            hir.source.code@.len(),
        )
}

} // verus!
