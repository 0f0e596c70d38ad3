//! Recursive-descent parser with one token of lookahead, building an [`Hir`]
//! from the lexer's symbol stream.
//!
//! Binary operators are resolved by precedence climbing (`and` = 3 binds
//! tighter than `xor` = 2, which binds tighter than `or` = 1; chains of equal
//! or lower precedence associate to the left).  Every function promises that
//! what it parses is structurally well-formed against the source
//! ([`hir_value_wf`]) and that the cursor only moves forward.

use vstd::prelude::*;
use std::rc::Rc;

use crate::error::{Error, Reason};
use crate::hir::{
    hir_args_wf, hir_statement_wf, hir_value_wf, hir_wf, name_wf, quote_wf, Hir, HirBitAddress,
    HirBool, HirCall, HirCallStatement, HirLetStatement, HirNot, HirNumber, HirStatement,
    HirValue, HirValueType, HirVarRef, HirWriteStatement, HirAnd, HirOr, HirXor,
};
use crate::lexer::{digit_run_end, lemma_digit_run_bounds, lemma_lex_spec_bounds, lex_spec, skip_spec, Lexer};
use crate::symbol::Symbol;
use crate::util::{all_digits, digits_value, is_digit, parse_number, Q, Quote, Source};

verus! {

/// Appending a well-formed value keeps an argument list well-formed.
pub proof fn lemma_hir_args_wf_push(args: Seq<HirValue>, v: HirValue, n: nat)
    requires
        hir_args_wf(args, n),
        hir_value_wf(v, n),
    ensures
        hir_args_wf(args.push(v), n),
    decreases args.len(),
{
    if args.len() == 0 {
        assert(args.push(v).len() == 1);
        assert(args.push(v)[0] == v);
        assert(args.push(v).drop_first() =~= Seq::<HirValue>::empty());
        assert(hir_args_wf(Seq::<HirValue>::empty(), n));
        assert(hir_args_wf(args.push(v), n));
    } else {
        assert(args.push(v)[0] == args[0]);
        assert(args.push(v).drop_first() =~= args.drop_first().push(v));
        lemma_hir_args_wf_push(args.drop_first(), v, n);
        assert(hir_args_wf(args.push(v), n));
    }
}

/// A number token the lexer produced spans a non-empty digit run whose
/// value fits in `usize`.
pub proof fn lemma_number_token_digits(s: Seq<u8>, i: nat)
    requires
        i <= s.len(),
        lex_spec(s, i).token == Some(Symbol::Number),
    ensures
        ({
            let lr = lex_spec(s, i);
            &&& lr.start < lr.end <= s.len()
            &&& all_digits(s.subrange(lr.start, lr.end))
            &&& digits_value(s.subrange(lr.start, lr.end)) <= usize::MAX
        }),
{
    let j = skip_spec(s, i);
    crate::lexer::lemma_skip_spec_bounds(s, i);
    assert(is_digit(s[j as int]));
    lemma_digit_run_bounds(s, j);
    lemma_digit_run_bounds(s, (j + 1) as nat);
    assert(digit_run_end(s, j) == digit_run_end(s, (j + 1) as nat));
}

/// Wraps `value` in a `not` node spanning from the operator to the value.
fn apply_unary(op: Q<Symbol>, value: HirValue) -> (r: HirValue)
    requires
        op.value == Symbol::Not,
        op.quote.start <= value.quote.end,
    ensures
        r.quote.start == op.quote.start,
        r.quote.end == value.quote.end,
        r.vtype matches HirValueType::Not(b) && b.value == value,
        forall|n: nat| hir_value_wf(value, n) ==> hir_value_wf(r, n),
{
    let quote = Quote::new(op.quote.start, value.quote.end);
    HirValue::new(quote, HirValueType::Not(Box::new(HirNot { value })))
}

/// Combines two operands with a binary operator node spanning both.
fn apply_binary(op: Q<Symbol>, left: HirValue, right: HirValue) -> (r: HirValue)
    requires
        op.value == Symbol::And || op.value == Symbol::Or || op.value == Symbol::Xor,
        left.quote.start <= right.quote.end,
    ensures
        r.quote.start == left.quote.start,
        r.quote.end == right.quote.end,
        match op.value {
            Symbol::And => r.vtype matches HirValueType::And(b) && b.left == left && b.right
                == right,
            Symbol::Or => r.vtype matches HirValueType::Or(b) && b.left == left && b.right
                == right,
            _ => r.vtype matches HirValueType::Xor(b) && b.left == left && b.right == right,
        },
        forall|n: nat|
            hir_value_wf(left, n) && hir_value_wf(right, n) ==> hir_value_wf(r, n),
{
    let quote = Quote::new(left.quote.start, right.quote.end);
    match op.value {
        Symbol::And => HirValue::new(quote, HirValueType::And(Box::new(HirAnd { left, right }))),
        Symbol::Or => HirValue::new(quote, HirValueType::Or(Box::new(HirOr { left, right }))),
        _ => HirValue::new(quote, HirValueType::Xor(Box::new(HirXor { left, right }))),
    }
}

/// The parser: the shared source, the lexer, and one token of lookahead.
pub struct Parser {
    pub source: Rc<Source>,
    pub lexer: Lexer,
    pub buffer: Q<Symbol>,
}

/// The parser's invariant: the lookahead token lies behind the lexer cursor,
/// which lies within the source, and every token but end-of-input is
/// non-empty.
pub open spec fn parser_wf(p: Parser) -> bool {
    &&& p.source == p.lexer.source
    &&& p.lexer.index <= p.source.code@.len()
    &&& p.buffer.quote.start <= p.buffer.quote.end
    &&& p.buffer.quote.end <= p.lexer.index
    &&& (p.buffer.value != Symbol::Null ==> p.buffer.quote.start < p.buffer.quote.end)
}

impl Parser {
    pub fn new(source: Rc<Source>) -> (r: Parser)
        ensures
            r.source == source,
            r.lexer.source == source,
            r.lexer.index == 0,
            r.buffer.value == Symbol::Null,
            parser_wf(r),
    {
        Parser {
            source: source.clone(),
            lexer: Lexer::new(source),
            buffer: Q::new(Symbol::Null, 0, 0),
        }
    }

    /// Reads the next symbol into the lookahead buffer.
    fn advance(&mut self) -> (r: Result<(), Error>)
        requires
            parser_wf(*old(self)),
        ensures
            parser_wf(*final(self)),
            final(self).source == old(self).source,
            final(self).buffer.quote.start >= old(self).buffer.quote.start,
            r is Err ==> final(self).buffer == old(self).buffer,
            r is Ok ==> final(self).buffer.quote.start >= old(self).buffer.quote.end,
            r is Ok ==> (old(self).buffer.value != Symbol::Null ==> final(self).buffer.quote.start > old(self).buffer.quote.start),
            ({
                let lr = lex_spec(old(self).source.code@, old(self).lexer.index as nat);
                match r {
                    Ok(()) => {
                        &&& lr.token == Some(final(self).buffer.value)
                        &&& final(self).buffer.quote.start == lr.start
                        &&& final(self).buffer.quote.end == lr.end
                        &&& final(self).lexer.index == lr.end
                    },
                    Err(e) => {
                        &&& lr.token is None
                        &&& e.reason == lr.reason
                        &&& e.quote.start == lr.start
                        &&& e.quote.end == lr.end
                    },
                }
            }),
    {
        proof {
            lemma_lex_spec_bounds(self.lexer.source.code@, self.lexer.index as nat);
        }
        match self.lexer.read_symbol() {
            Ok(q) => {
                self.buffer = q;
                Ok(())
            },
            Err(e) => Err(e),
        }
    }

    /// Consumes the lookahead token when it has the expected kind, and fails
    /// with an unexpected-symbol error otherwise.
    fn expect(&mut self, value: Symbol) -> (r: Result<Quote, Error>)
        requires
            parser_wf(*old(self)),
        ensures
            parser_wf(*final(self)),
            final(self).source == old(self).source,
            final(self).buffer.quote.start >= old(self).buffer.quote.start,
            r matches Ok(q) ==> {
                &&& old(self).buffer.value == value
                &&& q == old(self).buffer.quote
                &&& quote_wf(q, old(self).source.code@.len())
                &&& (value != Symbol::Null ==> q.start < q.end)
                &&& final(self).buffer.quote.start >= q.end
                &&& (value != Symbol::Null ==> final(self).buffer.quote.start > old(self).buffer.quote.start)
                &&& ({
                    let lr = lex_spec(old(self).source.code@, old(self).lexer.index as nat);
                    &&& lr.token == Some(final(self).buffer.value)
                    &&& final(self).buffer.quote.start == lr.start
                    &&& final(self).buffer.quote.end == lr.end
                    &&& final(self).lexer.index == lr.end
                })
            },
            r matches Err(e) ==> ({
                let lr = lex_spec(old(self).source.code@, old(self).lexer.index as nat);
                if old(self).buffer.value != value {
                    &&& e == (Error { quote: old(self).buffer.quote, reason: Reason::UnexpectedSymbol })
                    &&& final(self).buffer == old(self).buffer
                } else {
                    &&& lr.token is None
                    &&& e.reason == lr.reason
                    &&& e.quote.start == lr.start
                    &&& e.quote.end == lr.end
                }
            }),
    {
        if self.buffer.value == value {
            let quote = self.buffer.quote;
            match self.advance() {
                Ok(()) => Ok(quote),
                Err(e) => Err(e),
            }
        } else {
            Err(Error::new(self.buffer.quote, Reason::UnexpectedSymbol))
        }
    }

    /// Reads the rest of a raw bit address `ptr.bit` whose pointer token
    /// `q_ptr` is already consumed; the lookahead holds the dot.
    fn read_raw_address(&mut self, q_ptr: Quote) -> (r: Result<HirValue, Error>)
        requires
            parser_wf(*old(self)),
            q_ptr.start < q_ptr.end,
            q_ptr.end <= old(self).buffer.quote.start,
            old(self).buffer.value != Symbol::Null,
        ensures
            parser_wf(*final(self)),
            final(self).source == old(self).source,
            final(self).buffer.quote.start >= old(self).buffer.quote.start,
            r matches Ok(v) ==> {
                &&& hir_value_wf(v, old(self).source.code@.len())
                &&& v.quote.start == q_ptr.start
                &&& v.quote.end <= final(self).buffer.quote.start
                &&& final(self).buffer.quote.start > old(self).buffer.quote.start
            },
            ({
                let code = old(self).source.code@;
                let punct = old(self).buffer.quote;
                let lr2 = lex_spec(code, old(self).lexer.index as nat);
                let ptr_txt = code.subrange(q_ptr.start as int, q_ptr.end as int);
                if !(all_digits(ptr_txt) && digits_value(ptr_txt) <= usize::MAX) {
                    r == Err::<HirValue, Error>(
                        Error { quote: q_ptr, reason: Reason::InvalidNumber },
                    )
                } else if lr2.token is None {
                    r matches Err(e) && e.reason == lr2.reason && e.quote.start == lr2.start
                        && e.quote.end == lr2.end
                } else if lr2.token != Some(Symbol::Number) {
                    r matches Err(e) && e.reason == Reason::UnexpectedSymbol && e.quote.start
                        == lr2.start && e.quote.end == lr2.end
                } else {
                    let lr3 = lex_spec(code, lr2.end as nat);
                    if lr3.token is None {
                        r matches Err(e) && e.reason == lr3.reason && e.quote.start == lr3.start
                            && e.quote.end == lr3.end
                    } else {
                        let bit = digits_value(code.subrange(lr2.start, lr2.end));
                        let adj1 = q_ptr.end == punct.start || q_ptr.start == punct.end;
                        let adj2 = punct.end == lr2.start || punct.start == lr2.end;
                        if adj1 && adj2 && digits_value(ptr_txt) <= 65535 && bit <= 7 {
                            r matches Ok(v) && v.quote.start == q_ptr.start && v.quote.end
                                == lr2.end && (v.vtype matches HirValueType::BitAddress(a)
                                && a.prefix == 0 && a.ptr as nat == digits_value(ptr_txt)
                                && a.bit as nat == bit)
                        } else {
                            r matches Err(e) && e.reason == Reason::InvalidBitAddressSymbol
                                && e.quote.start == q_ptr.start && e.quote.end == lr2.end
                        }
                    }
                }
            }),
    {
        let start = q_ptr.start;
        let ptr = match parse_number(&self.source, &q_ptr) {
            Ok(v) => v,
            Err(e) => {
                return Err(e);
            },
        };
        let punct = self.buffer.quote;
        match self.advance() {
            Ok(()) => (),
            Err(e) => {
                return Err(e);
            },
        }
        let q_bit = match self.expect(Symbol::Number) {
            Ok(q) => q,
            Err(e) => {
                return Err(e);
            },
        };
        proof {
            lemma_number_token_digits(old(self).source.code@, old(self).lexer.index as nat);
        }
        let bit = match parse_number(&self.source, &q_bit) {
            Ok(v) => v,
            Err(e) => {
                proof {
                    assert(false);
                }
                return Err(e);
            },
        };
        let end = q_bit.end;
        if !q_ptr.adjacent(&punct) || !punct.adjacent(&q_bit) || ptr > 65535 || bit > 7 {
            return Err(Error::new(Quote::new(start, end), Reason::InvalidBitAddressSymbol));
        }
        let quote = Quote::new(start, end);
        Ok(HirValue::new(
            quote,
            HirValueType::BitAddress(HirBitAddress { prefix: 0, ptr: ptr as u16, bit: bit as u8 }),
        ))
    }

    /// Reads the rest of a prefixed bit address `Xptr.bit` whose prefix token
    /// `prefix` is already consumed; the lookahead holds the dot.
    fn read_prefixed_address(&mut self, prefix: Quote) -> (r: Result<HirValue, Error>)
        requires
            parser_wf(*old(self)),
            prefix.start < prefix.end,
            prefix.end <= old(self).buffer.quote.start,
            old(self).buffer.value != Symbol::Null,
        ensures
            parser_wf(*final(self)),
            final(self).source == old(self).source,
            final(self).buffer.quote.start >= old(self).buffer.quote.start,
            r matches Ok(v) ==> {
                &&& hir_value_wf(v, old(self).source.code@.len())
                &&& v.quote.start == prefix.start
                &&& v.quote.end <= final(self).buffer.quote.start
                &&& final(self).buffer.quote.start > old(self).buffer.quote.start
            },
            ({
                let code = old(self).source.code@;
                let dot = old(self).buffer;
                let lr2 = lex_spec(code, old(self).lexer.index as nat);
                let ptr_txt = code.subrange(prefix.start + 1, prefix.end as int);
                if dot.value != Symbol::Punct {
                    r == Err::<HirValue, Error>(
                        Error { quote: dot.quote, reason: Reason::UnexpectedSymbol },
                    )
                } else if lr2.token is None {
                    r matches Err(e) && e.reason == lr2.reason && e.quote.start == lr2.start
                        && e.quote.end == lr2.end
                } else if lr2.token != Some(Symbol::Number) {
                    r matches Err(e) && e.reason == Reason::UnexpectedSymbol && e.quote.start
                        == lr2.start && e.quote.end == lr2.end
                } else {
                    let lr3 = lex_spec(code, lr2.end as nat);
                    if lr3.token is None {
                        r matches Err(e) && e.reason == lr3.reason && e.quote.start == lr3.start
                            && e.quote.end == lr3.end
                    } else {
                        let bit = digits_value(code.subrange(lr2.start, lr2.end));
                        let adj1 = prefix.end == dot.quote.start || prefix.start == dot.quote.end;
                        let adj2 = dot.quote.end == lr2.start || dot.quote.start == lr2.end;
                        let ptr_ok = prefix.end - prefix.start >= 2 && all_digits(ptr_txt)
                            && digits_value(ptr_txt) <= usize::MAX && digits_value(ptr_txt)
                            <= 65535;
                        if adj1 && adj2 && bit <= 7 && ptr_ok {
                            r matches Ok(v) && v.quote.start == prefix.start && v.quote.end
                                == lr2.end && (v.vtype matches HirValueType::BitAddress(a)
                                && a.prefix == code[prefix.start as int] && a.ptr as nat
                                == digits_value(ptr_txt) && a.bit as nat == bit)
                        } else {
                            r matches Err(e) && e.reason == Reason::InvalidBitAddressSymbol
                                && e.quote.start == prefix.start && e.quote.end == lr2.end
                        }
                    }
                }
            }),
    {
        let start = prefix.start;
        let punct = match self.expect(Symbol::Punct) {
            Ok(q) => q,
            Err(e) => {
                return Err(e);
            },
        };
        let q_bit = match self.expect(Symbol::Number) {
            Ok(q) => q,
            Err(e) => {
                return Err(e);
            },
        };
        proof {
            lemma_number_token_digits(old(self).source.code@, old(self).lexer.index as nat);
        }
        let bit = match parse_number(&self.source, &q_bit) {
            Ok(v) => v,
            Err(e) => {
                proof {
                    assert(false);
                }
                return Err(e);
            },
        };
        let end = q_bit.end;
        if !prefix.adjacent(&punct) || !punct.adjacent(&q_bit) || bit > 7 {
            return Err(Error::new(Quote::new(start, end), Reason::InvalidBitAddressSymbol));
        }
        // The prefix token must be one letter followed by a decimal pointer.
        if prefix.end - prefix.start < 2 {
            return Err(Error::new(Quote::new(start, end), Reason::InvalidBitAddressSymbol));
        }
        let prefix_char = self.source.code[prefix.start];
        let num_quote = Quote::new(prefix.start + 1, prefix.end);
        let ptr = match parse_number(&self.source, &num_quote) {
            Ok(v) => v,
            Err(_) => {
                return Err(Error::new(Quote::new(start, end), Reason::InvalidBitAddressSymbol));
            },
        };
        if ptr > 65535 {
            return Err(Error::new(Quote::new(start, end), Reason::InvalidBitAddressSymbol));
        }
        let quote = Quote::new(start, end);
        Ok(HirValue::new(
            quote,
            HirValueType::BitAddress(HirBitAddress {
                prefix: prefix_char,
                ptr: ptr as u16,
                bit: bit as u8,
            }),
        ))
    }

    /// Reads a call's argument list `(args, ...)`; the lookahead holds the
    /// opening parenthesis.  Returns the call and its full span.
    fn read_call_raw(&mut self, name: Quote) -> (r: Result<(HirCall, Quote), Error>)
        requires
            parser_wf(*old(self)),
            name.start < name.end,
            name.end <= old(self).source.code@.len(),
            name.end <= old(self).buffer.quote.start,
            old(self).buffer.value != Symbol::Null,
        ensures
            parser_wf(*final(self)),
            final(self).source == old(self).source,
            final(self).buffer.quote.start >= old(self).buffer.quote.start,
            r matches Ok((call, quote)) ==> {
                &&& call.name == name
                &&& hir_args_wf(call.args@, old(self).source.code@.len())
                &&& quote.start == name.start
                &&& quote.start < quote.end <= old(self).source.code@.len()
                &&& quote.end <= final(self).buffer.quote.start
                &&& final(self).buffer.quote.start > old(self).buffer.quote.start
            },
            old(self).buffer.value != Symbol::LeftParen ==> r == Err::<(HirCall, Quote), Error>(
                Error { quote: old(self).buffer.quote, reason: Reason::UnexpectedSymbol },
            ),
        decreases old(self).source.code@.len() - old(self).buffer.quote.start, 0int,
    {
        let ghost n = self.source.code@.len();
        let start = name.start;
        match self.expect(Symbol::LeftParen) {
            Ok(_) => (),
            Err(e) => {
                return Err(e);
            },
        }
        let mut args: Vec<HirValue> = Vec::new();
        while self.buffer.value != Symbol::RightParen
            invariant
                parser_wf(*self),
                self.source == old(self).source,
                n == self.source.code@.len(),
                hir_args_wf(args@, n),
                self.buffer.quote.start > old(self).buffer.quote.start,
                old(self).buffer.value == Symbol::LeftParen,
            decreases n - self.buffer.quote.start,
        {
            let arg = match self.read_value() {
                Ok(v) => v,
                Err(e) => {
                    return Err(e);
                },
            };
            proof {
                lemma_hir_args_wf_push(args@, arg, n);
            }
            args.push(arg);
            if self.buffer.value != Symbol::Comma {
                break ;
            }
            match self.advance() {
                Ok(()) => (),
                Err(e) => {
                    return Err(e);
                },
            }
        }
        let end = match self.expect(Symbol::RightParen) {
            Ok(q) => q.end,
            Err(e) => {
                return Err(e);
            },
        };
        let quote = Quote::new(start, end);
        Ok((HirCall { name, args }, quote))
    }

    /// Reads a call expression `name(args, ...)`.
    fn read_call(&mut self, name: Quote) -> (r: Result<HirValue, Error>)
        requires
            parser_wf(*old(self)),
            name.start < name.end,
            name.end <= old(self).source.code@.len(),
            name.end <= old(self).buffer.quote.start,
            old(self).buffer.value != Symbol::Null,
        ensures
            parser_wf(*final(self)),
            final(self).source == old(self).source,
            final(self).buffer.quote.start >= old(self).buffer.quote.start,
            r matches Ok(v) ==> {
                &&& hir_value_wf(v, old(self).source.code@.len())
                &&& v.quote.start == name.start
                &&& v.quote.end <= final(self).buffer.quote.start
                &&& final(self).buffer.quote.start > old(self).buffer.quote.start
                &&& (v.vtype matches HirValueType::Call(c) && c.name == name)
            },
        decreases old(self).source.code@.len() - old(self).buffer.quote.start, 1int,
    {
        match self.read_call_raw(name) {
            Ok((call, quote)) => Ok(HirValue::new(quote, HirValueType::Call(call))),
            Err(e) => Err(e),
        }
    }

    /// Reads a unary value: a `not`-chain, a parenthesized value, a literal,
    /// a bit address, a call, or a variable reference.
    fn read_unary_value(&mut self) -> (r: Result<HirValue, Error>)
        requires
            parser_wf(*old(self)),
        ensures
            parser_wf(*final(self)),
            final(self).source == old(self).source,
            final(self).buffer.quote.start >= old(self).buffer.quote.start,
            r matches Ok(v) ==> {
                &&& hir_value_wf(v, old(self).source.code@.len())
                &&& v.quote.start >= old(self).buffer.quote.start
                &&& v.quote.end <= final(self).buffer.quote.start
                &&& final(self).buffer.quote.start > old(self).buffer.quote.start
            },
            ((old(self).buffer.value == Symbol::True || old(self).buffer.value == Symbol::False)
                && lex_spec(old(self).source.code@, old(self).lexer.index as nat).token
                is Some) ==> (r matches Ok(v) && v.quote == old(self).buffer.quote && (
            v.vtype matches HirValueType::Bool(b) && b.value == (old(self).buffer.value
                == Symbol::True)) && lex_spec(
                old(self).source.code@,
                old(self).lexer.index as nat,
            ).token == Some(final(self).buffer.value)),
            ({
                let code = old(self).source.code@;
                let b = old(self).buffer;
                let txt = code.subrange(b.quote.start as int, b.quote.end as int);
                let lr2 = lex_spec(code, old(self).lexer.index as nat);
                (b.value == Symbol::Number && all_digits(txt) && digits_value(txt) <= usize::MAX
                    && lr2.token is Some && lr2.token != Some(Symbol::Punct)) ==> (
                r matches Ok(v) && v.quote == b.quote && (v.vtype matches HirValueType::Number(x)
                    && x.value as nat == digits_value(txt)))
            }),
            ({
                let b = old(self).buffer;
                let lr2 = lex_spec(old(self).source.code@, old(self).lexer.index as nat);
                (b.value == Symbol::Identifier && lr2.token is Some && lr2.token != Some(
                    Symbol::Punct,
                ) && lr2.token != Some(Symbol::LeftParen)) ==> (r matches Ok(v) && v.quote
                    == b.quote && v.vtype is VarRef)
            }),
        decreases old(self).source.code@.len() - old(self).buffer.quote.start, 2int,
    {
        let symbol = self.buffer;
        if symbol.value.is_unary_op() {
            match self.advance() {
                Ok(()) => (),
                Err(e) => {
                    return Err(e);
                },
            }
            let inner = match self.read_unary_value() {
                Ok(v) => v,
                Err(e) => {
                    return Err(e);
                },
            };
            return Ok(apply_unary(symbol, inner));
        }
        match symbol.value {
            Symbol::LeftParen => {
                match self.advance() {
                    Ok(()) => (),
                    Err(e) => {
                        return Err(e);
                    },
                }
                let value = match self.read_value() {
                    Ok(v) => v,
                    Err(e) => {
                        return Err(e);
                    },
                };
                match self.expect(Symbol::RightParen) {
                    Ok(_) => (),
                    Err(e) => {
                        return Err(e);
                    },
                }
                Ok(value)
            },
            Symbol::True | Symbol::False => {
                match self.advance() {
                    Ok(()) => (),
                    Err(e) => {
                        return Err(e);
                    },
                }
                Ok(HirValue::new(
                    symbol.quote,
                    HirValueType::Bool(HirBool { value: symbol.value == Symbol::True }),
                ))
            },
            Symbol::Number => {
                match self.advance() {
                    Ok(()) => (),
                    Err(e) => {
                        return Err(e);
                    },
                }
                if self.buffer.value == Symbol::Punct {
                    return self.read_raw_address(symbol.quote);
                }
                let value = match parse_number(&self.source, &symbol.quote) {
                    Ok(v) => v,
                    Err(e) => {
                        return Err(e);
                    },
                };
                Ok(HirValue::new(symbol.quote, HirValueType::Number(HirNumber { value })))
            },
            Symbol::Identifier => {
                match self.advance() {
                    Ok(()) => (),
                    Err(e) => {
                        return Err(e);
                    },
                }
                match self.buffer.value {
                    Symbol::Punct => self.read_prefixed_address(symbol.quote),
                    Symbol::LeftParen => self.read_call(symbol.quote),
                    _ => Ok(HirValue::new(symbol.quote, HirValueType::VarRef(HirVarRef))),
                }
            },
            _ => Err(Error::new(self.buffer.quote, Reason::InvalidUnaryOperation)),
        }
    }

    /// Reads the continuation of a binary operation: the lookahead holds a
    /// binary operator and `left` is the already-parsed left operand.
    /// Climbing: the right-hand side extends only while the follower binds
    /// strictly tighter; ties and weaker operators combine to the left.
    fn read_binary_value(&mut self, left: HirValue) -> (r: Result<HirValue, Error>)
        requires
            parser_wf(*old(self)),
            old(self).buffer.value == Symbol::And || old(self).buffer.value == Symbol::Or || old(self).buffer.value == Symbol::Xor,
            hir_value_wf(left, old(self).source.code@.len()),
            left.quote.end <= old(self).buffer.quote.start,
        ensures
            parser_wf(*final(self)),
            final(self).source == old(self).source,
            final(self).buffer.quote.start >= old(self).buffer.quote.start,
            r matches Ok(v) ==> {
                &&& hir_value_wf(v, old(self).source.code@.len())
                &&& v.quote.start == left.quote.start
                &&& v.quote.end <= final(self).buffer.quote.start
                &&& final(self).buffer.quote.start > old(self).buffer.quote.start
            },
        decreases old(self).source.code@.len() - old(self).buffer.quote.start, 1int,
    {
        let op = self.buffer;
        match self.advance() {
            Ok(()) => (),
            Err(e) => {
                return Err(e);
            },
        }
        let right = match self.read_unary_value() {
            Ok(v) => v,
            Err(e) => {
                return Err(e);
            },
        };
        if !self.buffer.value.is_binary_op() {
            return Ok(apply_binary(op, left, right));
        }
        if op.value.precedence() < self.buffer.value.precedence() {
            let deeper = match self.read_binary_value(right) {
                Ok(v) => v,
                Err(e) => {
                    return Err(e);
                },
            };
            return Ok(apply_binary(op, left, deeper));
        }
        self.read_binary_value(apply_binary(op, left, right))
    }

    /// Reads a full value expression.
    fn read_value(&mut self) -> (r: Result<HirValue, Error>)
        requires
            parser_wf(*old(self)),
        ensures
            parser_wf(*final(self)),
            final(self).source == old(self).source,
            final(self).buffer.quote.start >= old(self).buffer.quote.start,
            r matches Ok(v) ==> {
                &&& hir_value_wf(v, old(self).source.code@.len())
                &&& v.quote.start >= old(self).buffer.quote.start
                &&& v.quote.end <= final(self).buffer.quote.start
                &&& final(self).buffer.quote.start > old(self).buffer.quote.start
            },
            ({
                let b = old(self).buffer;
                let lr2 = lex_spec(old(self).source.code@, old(self).lexer.index as nat);
                ((b.value == Symbol::True || b.value == Symbol::False) && (
                lr2.token matches Some(f) && f != Symbol::And && f != Symbol::Or && f
                    != Symbol::Xor)) ==> (r matches Ok(v) && v.quote == b.quote && (
                v.vtype matches HirValueType::Bool(bb) && bb.value == (b.value == Symbol::True)))
            }),
        decreases old(self).source.code@.len() - old(self).buffer.quote.start, 3int,
    {
        let left = match self.read_unary_value() {
            Ok(v) => v,
            Err(e) => {
                return Err(e);
            },
        };
        if !self.buffer.value.is_binary_op() {
            return Ok(left);
        }
        self.read_binary_value(left)
    }

    /// Reads a `let name = value;` statement; the lookahead holds `let`.
    fn read_let(&mut self) -> (r: Result<HirStatement, Error>)
        requires
            parser_wf(*old(self)),
        ensures
            parser_wf(*final(self)),
            final(self).source == old(self).source,
            final(self).buffer.quote.start >= old(self).buffer.quote.start,
            r matches Ok(st) ==> {
                &&& hir_statement_wf(st, old(self).source.code@.len())
                &&& final(self).buffer.quote.start > old(self).buffer.quote.start
                &&& st is Let
            },
            old(self).buffer.value != Symbol::Let ==> r == Err::<HirStatement, Error>(
                Error { quote: old(self).buffer.quote, reason: Reason::UnexpectedSymbol },
            ),
    {
        let start = match self.expect(Symbol::Let) {
            Ok(q) => q.start,
            Err(e) => {
                return Err(e);
            },
        };
        let name = match self.expect(Symbol::Identifier) {
            Ok(q) => q,
            Err(e) => {
                return Err(e);
            },
        };
        match self.expect(Symbol::Equal) {
            Ok(_) => (),
            Err(e) => {
                return Err(e);
            },
        }
        let value = match self.read_value() {
            Ok(v) => v,
            Err(e) => {
                return Err(e);
            },
        };
        let end = match self.expect(Symbol::Semicolon) {
            Ok(q) => q.end,
            Err(e) => {
                return Err(e);
            },
        };
        let quote = Quote::new(start, end);
        Ok(HirStatement::Let(HirLetStatement { quote, name, value }))
    }

    /// Reads the rest of a `name = value;` statement after its name.
    fn read_write(&mut self, name: Quote) -> (r: Result<HirStatement, Error>)
        requires
            parser_wf(*old(self)),
            name.start < name.end,
            name.end <= old(self).source.code@.len(),
            name.end <= old(self).buffer.quote.start,
        ensures
            parser_wf(*final(self)),
            final(self).source == old(self).source,
            final(self).buffer.quote.start >= old(self).buffer.quote.start,
            r matches Ok(st) ==> {
                &&& hir_statement_wf(st, old(self).source.code@.len())
                &&& final(self).buffer.quote.start > old(self).buffer.quote.start
                &&& (st matches HirStatement::Write(ws) && ws.name == name && ws.quote.start
                    == name.start)
            },
            old(self).buffer.value != Symbol::Equal ==> r == Err::<HirStatement, Error>(
                Error { quote: old(self).buffer.quote, reason: Reason::UnexpectedSymbol },
            ),
    {
        let start = name.start;
        match self.expect(Symbol::Equal) {
            Ok(_) => (),
            Err(e) => {
                return Err(e);
            },
        }
        let value = match self.read_value() {
            Ok(v) => v,
            Err(e) => {
                return Err(e);
            },
        };
        let end = match self.expect(Symbol::Semicolon) {
            Ok(q) => q.end,
            Err(e) => {
                return Err(e);
            },
        };
        let quote = Quote::new(start, end);
        Ok(HirStatement::Write(HirWriteStatement { quote, name, value }))
    }

    /// Reads a statement that begins with an identifier: a write `name = ...;`
    /// or a bare call `name(...);`.
    fn read_ident_statement(&mut self) -> (r: Result<HirStatement, Error>)
        requires
            parser_wf(*old(self)),
        ensures
            parser_wf(*final(self)),
            final(self).source == old(self).source,
            final(self).buffer.quote.start >= old(self).buffer.quote.start,
            r matches Ok(st) ==> {
                &&& hir_statement_wf(st, old(self).source.code@.len())
                &&& final(self).buffer.quote.start > old(self).buffer.quote.start
                &&& (st is Write || st is Call)
            },
            old(self).buffer.value != Symbol::Identifier ==> r == Err::<HirStatement, Error>(
                Error { quote: old(self).buffer.quote, reason: Reason::UnexpectedSymbol },
            ),
            ({
                let lr2 = lex_spec(old(self).source.code@, old(self).lexer.index as nat);
                &&& ((lr2.token == Some(Symbol::Equal) && r is Ok) ==> r->Ok_0 is Write)
                &&& ((lr2.token == Some(Symbol::LeftParen) && r is Ok) ==> r->Ok_0 is Call)
                &&& ((old(self).buffer.value == Symbol::Identifier && lr2.token is Some
                    && lr2.token != Some(Symbol::Equal) && lr2.token != Some(Symbol::LeftParen))
                    ==> (r matches Err(e) && e.reason == Reason::UnexpectedSymbol
                    && e.quote.start == lr2.start && e.quote.end == lr2.end))
            }),
    {
        let ident = match self.expect(Symbol::Identifier) {
            Ok(q) => q,
            Err(e) => {
                return Err(e);
            },
        };
        match self.buffer.value {
            Symbol::Equal => self.read_write(ident),
            Symbol::LeftParen => {
                let (call, quote) = match self.read_call_raw(ident) {
                    Ok(v) => v,
                    Err(e) => {
                        return Err(e);
                    },
                };
                match self.expect(Symbol::Semicolon) {
                    Ok(_) => (),
                    Err(e) => {
                        return Err(e);
                    },
                }
                let HirCall { name, args } = call;
                Ok(HirStatement::Call(HirCallStatement { quote, name, args }))
            },
            _ => Err(Error::new(self.buffer.quote, Reason::UnexpectedSymbol)),
        }
    }

    /// Parses the whole program: statements until end-of-input.
    ///
    /// On success every statement is well-formed against the source, and the
    /// program is empty exactly when the first symbol read is already
    /// end-of-input.
    pub fn parse(&mut self) -> (r: Result<Hir, Error>)
        requires
            parser_wf(*old(self)),
        ensures
            parser_wf(*final(self)),
            final(self).source == old(self).source,
            r matches Ok(hir) ==> {
                &&& hir.source == old(self).source
                &&& hir_wf(hir)
                &&& (hir.statements@.len() == 0 <==> lex_spec(
                    old(self).source.code@,
                    old(self).lexer.index as nat,
                ).token == Some(Symbol::Null))
            },
            lex_spec(old(self).source.code@, old(self).lexer.index as nat).token == Some(
                Symbol::Null,
            ) ==> r is Ok,
            ({
                let lr = lex_spec(old(self).source.code@, old(self).lexer.index as nat);
                (lr.token matches Some(sym) && sym != Symbol::Let && sym != Symbol::Identifier
                    && sym != Symbol::Null) ==> (r matches Err(e) && e.reason
                    == Reason::UnexpectedSymbol && e.quote.start == lr.start && e.quote.end
                    == lr.end)
            }),
    {
        let ghost n = self.source.code@.len();
        let ghost gtok = lex_spec(self.source.code@, self.lexer.index as nat).token;
        let mut hir = Hir::new(self.source.clone());
        match self.advance() {
            Ok(()) => (),
            Err(e) => {
                return Err(e);
            },
        }
        let ghost first = self.buffer.value;
        let ghost first_q = self.buffer;
        proof {
            lemma_lex_spec_bounds(old(self).source.code@, old(self).lexer.index as nat);
        }
        while self.buffer.value != Symbol::Null
            invariant
                parser_wf(*self),
                self.source == old(self).source,
                n == self.source.code@.len(),
                hir.source == old(self).source,
                forall|i: int|
                    0 <= i < hir.statements@.len() ==> hir_statement_wf(
                        #[trigger] hir.statements@[i],
                        n,
                    ),
                hir.statements@.len() == 0 ==> self.buffer == first_q,
                first_q.value == first,
                first == Symbol::Null ==> hir.statements@.len() == 0,
                gtok == Some(first),
                gtok == lex_spec(old(self).source.code@, old(self).lexer.index as nat).token,
                first_q.quote.start == lex_spec(
                    old(self).source.code@,
                    old(self).lexer.index as nat,
                ).start,
                first_q.quote.end == lex_spec(
                    old(self).source.code@,
                    old(self).lexer.index as nat,
                ).end,
                hir.statements@.len() > 0 ==> (first == Symbol::Let || first
                    == Symbol::Identifier),
            decreases n - self.buffer.quote.start,
        {
            let st = match self.buffer.value {
                Symbol::Let => self.read_let(),
                Symbol::Identifier => self.read_ident_statement(),
                _ => {
                    return Err(Error::new(self.buffer.quote, Reason::UnexpectedSymbol));
                },
            };
            match st {
                Ok(s) => hir.statements.push(s),
                Err(e) => {
                    return Err(e);
                },
            }
        }
        Ok(hir)
    }
}

} // verus!
