//! End-to-end runs of the compiler pipeline: parse, lower, translate, emit.

use std::rc::Rc;

use fpp_compiler::error::{Error, Reason};
use fpp_compiler::hir::Hir;
use fpp_compiler::lir::s7;
use fpp_compiler::mir::transformer;
use fpp_compiler::parser::Parser;
use fpp_compiler::util::Source;

fn parse(text: &str) -> Result<Hir, Error> {
    let source = Rc::new(Source::new("test.fpp".to_string(), text.as_bytes().to_vec()));
    let mut parser = Parser::new(source);
    parser.parse()
}

fn compile_to_awl(text: &str) -> Result<String, String> {
    let hir = parse(text).map_err(|e| format!("parse: {:?}", e))?;
    let mir = transformer::transform(hir).map_err(|e| format!("lower: {:?}", e))?;
    let lir = s7::transform(&mir).map_err(|e| format!("emit: {:?}", e))?;
    Ok(lir.networks[0].write_awl())
}

#[test]
fn end_to_end_flipflop() {
    let text = "let pos_auf = E0.5;\n\
                let t_stop = E0.1;\n\
                let t_auf = E0.2;\n\
                let tor_schliessen = A4.1;\n\
                tor_schliessen = sr(t_auf, pos_auf & t_stop & tor_schliessen);\n";
    let awl = compile_to_awl(text).unwrap();
    assert_eq!(
        awl,
        "CLR\nU E0.2\nS M0.0\nU E0.5\nU E0.1\nU A4.1\nR M0.0\nU M0.0\n= A4.1\n"
    );
}

#[test]
fn simple_forward_write() {
    let awl = compile_to_awl("let q = A0.0;\nq = E0.1;\n").unwrap();
    assert_eq!(awl, "CLR\nU E0.1\n= A0.0\n");
}

#[test]
fn write_through_reference_chain() {
    let awl = compile_to_awl("let a = A0.0;\nlet b = a;\nb = E0.1;\n").unwrap();
    assert_eq!(awl, "CLR\nU E0.1\n= A0.0\n");
}

#[test]
fn shadowing_most_recent_declaration_wins() {
    // The write resolves against the second `a`, which is writable.
    let awl = compile_to_awl("let a = E0.0;\nlet a = A0.1;\na = E0.2;\n").unwrap();
    assert_eq!(awl, "CLR\nU E0.2\n= A0.1\n");
}

#[test]
fn shadowing_hides_earlier_writable_binding() {
    // The second `a` is an input, so the write must fail even though the
    // first `a` was writable.
    let hir = parse("let a = A0.1;\nlet a = E0.0;\na = E0.2;\n").unwrap();
    let err = transformer::transform(hir).unwrap_err();
    assert_eq!(err.reason, Reason::NoWriteHandler);
}

#[test]
fn precedence_and_binds_tighter_than_or() {
    let awl = compile_to_awl(
        "let x = E0.0;\nlet y = E0.1;\nlet z = E0.2;\nlet q = A1.0;\nq = x or y and z;\n",
    )
    .unwrap();
    // `x or (y and z)`: the disjunction brackets the whole conjunction.
    assert_eq!(awl, "CLR\nU E0.0\nO(\nU E0.1\nU E0.2\n)\n= A1.0\n");
}

#[test]
fn precedence_equal_or_lower_associates_left() {
    let awl = compile_to_awl(
        "let x = E0.0;\nlet y = E0.1;\nlet z = E0.2;\nlet q = A1.0;\nq = x and y xor z;\n",
    )
    .unwrap();
    // `(x and y) xor z`: both brackets collapse to plain tests.
    assert_eq!(awl, "CLR\nU E0.0\nU E0.1\nX E0.2\n= A1.0\n");
}

#[test]
fn punctuation_operators_match_keywords() {
    let a = compile_to_awl("let q = A1.0;\nq = E0.0 | E0.1 & E0.2;\n").unwrap();
    let b = compile_to_awl("let q = A1.0;\nq = E0.0 or E0.1 and E0.2;\n").unwrap();
    assert_eq!(a, b);
}

#[test]
fn negation_marks_follow_operands() {
    let awl = compile_to_awl("let q = A1.0;\nq = not E0.0;\n").unwrap();
    assert_eq!(awl, "CLR\nU E0.0\nN\n= A1.0\n");
}

#[test]
fn rs_flipflop_resets_before_setting() {
    let awl = compile_to_awl("let q = A0.0;\nq = rs(E0.0, E0.1);\n").unwrap();
    assert_eq!(awl, "CLR\nU E0.0\nR M0.0\nU E0.1\nS M0.0\nU M0.0\n= A0.0\n");
}

#[test]
fn sr_flipflop_sets_before_resetting() {
    let awl = compile_to_awl("let q = A0.0;\nq = sr(E0.0, E0.1);\n").unwrap();
    assert_eq!(awl, "CLR\nU E0.0\nS M0.0\nU E0.1\nR M0.0\nU M0.0\n= A0.0\n");
}

#[test]
fn comments_and_whitespace_are_skipped() {
    let awl = compile_to_awl(
        "# a hash comment\nlet q = A0.0; // a line comment\n\n\tq = E0.1;\n",
    )
    .unwrap();
    assert_eq!(awl, "CLR\nU E0.1\n= A0.0\n");
}

#[test]
fn empty_program_emits_nothing() {
    let awl = compile_to_awl("# nothing but a comment\n").unwrap();
    assert_eq!(awl, "");
}

#[test]
fn input_prefix_i_and_output_prefix_q() {
    let awl = compile_to_awl("let q = Q2.3;\nq = I1.7;\n").unwrap();
    assert_eq!(awl, "CLR\nU E1.7\n= A2.3\n");
}

#[test]
fn memory_bits_keep_their_pool_pointers() {
    // Memory bits stay at the front of the M area; only byte-class
    // allocations are shifted past the bit pool.
    let awl = compile_to_awl(
        "let a = M();\nlet b = M();\nlet q = A0.0;\nq = a & b;\n",
    )
    .unwrap();
    assert_eq!(awl, "CLR\nU M0.0\nU M0.1\n= A0.0\n");
}

#[test]
fn optimizer_collapses_single_test_brackets() {
    let awl = compile_to_awl("let q = A0.0;\nq = E0.0 & E0.1;\n").unwrap();
    // The right operand is a single bit test, so no bracket survives.
    assert_eq!(awl, "CLR\nU E0.0\nU E0.1\n= A0.0\n");
}

#[test]
fn optimizer_keeps_brackets_around_compound_operands() {
    let awl = compile_to_awl("let q = A0.0;\nq = E0.0 & (E0.1 | E0.2);\n").unwrap();
    assert_eq!(awl, "CLR\nU E0.0\nU(\nU E0.1\nO E0.2\n)\n= A0.0\n");
}
