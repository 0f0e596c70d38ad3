//! Each failure reason, triggered by an input that earns it.

use std::rc::Rc;

use fpp_compiler::error::{Error, Reason};
use fpp_compiler::hir::Hir;
use fpp_compiler::lir;
use fpp_compiler::lir::s7;
use fpp_compiler::mir::transformer;
use fpp_compiler::mir::value::{MirAddress, MirAddressType};
use fpp_compiler::mir::{Mir, MirAction, MirInstruction, MirRawAction};
use fpp_compiler::parser::Parser;
use fpp_compiler::util::Source;

fn parse(text: &str) -> Result<Hir, Error> {
    let source = Rc::new(Source::new("test.fpp".to_string(), text.as_bytes().to_vec()));
    let mut parser = Parser::new(source);
    parser.parse()
}

fn lower_err(text: &str) -> Reason {
    transformer::transform(parse(text).unwrap()).unwrap_err().reason
}

#[test]
fn unexpected_character() {
    let err = parse("let a = ?;").unwrap_err();
    assert_eq!(err.reason, Reason::UnexpectedCharacter);
    assert_eq!((err.quote.start, err.quote.end), (8, 9));
}

#[test]
fn lone_slash_is_unexpected() {
    let err = parse("let a = E0.0; / b").unwrap_err();
    assert_eq!(err.reason, Reason::UnexpectedCharacter);
}

#[test]
fn oversized_number_is_invalid() {
    let err = parse("let a = 99999999999999999999999999999;").unwrap_err();
    assert_eq!(err.reason, Reason::InvalidNumber);
}

#[test]
fn unexpected_symbol_at_statement_start() {
    let err = parse("; let a = E0.0;").unwrap_err();
    assert_eq!(err.reason, Reason::UnexpectedSymbol);
}

#[test]
fn missing_semicolon() {
    let err = parse("let a = E0.0").unwrap_err();
    assert_eq!(err.reason, Reason::UnexpectedSymbol);
}

#[test]
fn bit_address_needs_adjacency() {
    let err = parse("let a = E0 .1;").unwrap_err();
    assert_eq!(err.reason, Reason::InvalidBitAddressSymbol);
}

#[test]
fn bit_index_above_seven_is_rejected() {
    let err = parse("let a = E0.8;").unwrap_err();
    assert_eq!(err.reason, Reason::InvalidBitAddressSymbol);
}

#[test]
fn pointer_above_pointer_space_is_rejected() {
    let err = parse("let a = E65536.0;").unwrap_err();
    assert_eq!(err.reason, Reason::InvalidBitAddressSymbol);
}

#[test]
fn operator_without_operand() {
    let err = parse("let a = E0.0 and ;").unwrap_err();
    assert_eq!(err.reason, Reason::InvalidUnaryOperation);
}

#[test]
fn unknown_variable_in_expression() {
    assert_eq!(lower_err("let q = A0.0;\nq = ghost_name;\n"), Reason::UnknownVariable);
}

#[test]
fn unknown_variable_in_write() {
    assert_eq!(lower_err("missing = E0.0;\n"), Reason::UnknownVariable);
}

#[test]
fn unknown_function() {
    assert_eq!(lower_err("let q = A0.0;\nq = blink(E0.0);\n"), Reason::UnknownFunction);
}

#[test]
fn unknown_bit_address_prefix() {
    assert_eq!(lower_err("let a = X0.0;\n"), Reason::UnknownBitAddressType);
}

#[test]
fn raw_address_has_no_class() {
    assert_eq!(lower_err("let q = A0.0;\nq = 0.1;\n"), Reason::UnknownBitAddressType);
}

#[test]
fn write_to_input_has_no_handler() {
    assert_eq!(lower_err("let a = E0.0;\na = E0.1;\n"), Reason::NoWriteHandler);
}

#[test]
fn write_to_literal_has_no_handler() {
    assert_eq!(lower_err("let a = true;\na = E0.0;\n"), Reason::NoWriteHandler);
}

#[test]
fn write_of_number_is_not_bit_readable() {
    assert_eq!(lower_err("let q = A0.0;\nq = 5;\n"), Reason::ValueNotBitReadable);
}

#[test]
fn byte_allocation_is_not_bit_readable() {
    assert_eq!(lower_err("MB();\n"), Reason::ValueNotBitReadable);
}

#[test]
fn flipflop_wants_two_arguments() {
    assert_eq!(lower_err("let q = A0.0;\nq = rs(E0.0);\n"), Reason::InvalidArgsCount);
}

#[test]
fn flipflop_rejects_non_bit_argument() {
    assert_eq!(lower_err("let q = A0.0;\nq = rs(true, E0.0);\n"), Reason::InvalidArgType);
}

#[test]
fn counter_address_in_bit_opcode() {
    let source = Rc::new(Source::new("t".to_string(), Vec::new()));
    let mut mir = Mir::new(source);
    let counter = MirAddress { atype: MirAddressType::PhysicalCounter, ptr: 0, bit: 0 };
    mir.actions.push(MirAction::Raw(MirRawAction {
        instructions: vec![MirInstruction::And { addr: counter }],
    }));
    assert_eq!(s7::transform(&mir).unwrap_err(), lir::error::Error::NonBitAddress);
}

#[test]
fn bit_address_in_counter_opcode() {
    let source = Rc::new(Source::new("t".to_string(), Vec::new()));
    let mut mir = Mir::new(source);
    let bit = MirAddress { atype: MirAddressType::PhysicalInput1, ptr: 0, bit: 0 };
    mir.actions.push(MirAction::Raw(MirRawAction {
        instructions: vec![MirInstruction::CounterForward { addr: bit }],
    }));
    assert_eq!(s7::transform(&mir).unwrap_err(), lir::error::Error::NonCounterAddress);
}

#[test]
fn bit_address_in_transfer() {
    let source = Rc::new(Source::new("t".to_string(), Vec::new()));
    let mut mir = Mir::new(source);
    let bit = MirAddress { atype: MirAddressType::PhysicalInput1, ptr: 0, bit: 0 };
    mir.actions.push(MirAction::Raw(MirRawAction {
        instructions: vec![MirInstruction::Transfer { addr: bit }],
    }));
    assert_eq!(s7::transform(&mir).unwrap_err(), lir::error::Error::NonByteAddress);
}

#[test]
fn unmatched_bracket_close_is_invalid_stack() {
    let source = Rc::new(Source::new("t".to_string(), Vec::new()));
    let mut mir = Mir::new(source);
    mir.actions.push(MirAction::Raw(MirRawAction {
        instructions: vec![MirInstruction::End],
    }));
    assert_eq!(s7::transform(&mir).unwrap_err(), lir::error::Error::InvalidStack);
}

#[test]
fn leftover_bracket_depth_is_invalid_stack() {
    let source = Rc::new(Source::new("t".to_string(), Vec::new()));
    let mut mir = Mir::new(source);
    mir.actions.push(MirAction::Raw(MirRawAction {
        instructions: vec![MirInstruction::AndStart],
    }));
    assert_eq!(s7::transform(&mir).unwrap_err(), lir::error::Error::InvalidStack);
}

#[test]
fn bracket_depth_past_seven_is_invalid_stack() {
    let source = Rc::new(Source::new("t".to_string(), Vec::new()));
    let mut mir = Mir::new(source);
    let mut instructions = Vec::new();
    for _ in 0..8 {
        instructions.push(MirInstruction::AndStart);
    }
    mir.actions.push(MirAction::Raw(MirRawAction { instructions }));
    assert_eq!(s7::transform(&mir).unwrap_err(), lir::error::Error::InvalidStack);
}

#[test]
fn error_messages_are_fixed_per_reason() {
    let e = Error::new(fpp_compiler::util::Quote::new(0, 1), Reason::UnknownVariable);
    assert_eq!(e.message(), "this variable does not exist");
    let e = Error::new(fpp_compiler::util::Quote::new(0, 1), Reason::UnexpectedCharacter);
    assert_eq!(e.message(), "this character was not expected");
}
