//! Unit checks of the building blocks: quotes, number parsing, the keyword
//! table, the allocator, the optimizer, and address rendering.

use std::rc::Rc;

use fpp_compiler::error::Reason;
use fpp_compiler::lir::s7::{S7Address, S7AddressType, S7Instruction};
use fpp_compiler::mir::optimizer::optimize;
use fpp_compiler::mir::value::{MirAddress, MirAddressType};
use fpp_compiler::mir::writer::MirInstructionWriter;
use fpp_compiler::mir::{MirAllocator, MirInstruction};
use fpp_compiler::mir::value::{MirBool, MirValue};
use fpp_compiler::mir::{Mir, MirVariable};
use fpp_compiler::symbol::{keyword, Symbol};
use fpp_compiler::util::{parse_number, Quote, Source};

#[test]
fn adjacent_quotes_touch() {
    let a = Quote::new(0, 2);
    let b = Quote::new(2, 3);
    let c = Quote::new(4, 5);
    assert!(a.adjacent(&b));
    assert!(b.adjacent(&a));
    assert!(!a.adjacent(&c));
}

#[test]
fn parse_number_reads_digit_runs() {
    let source = Source::new("t".to_string(), b"12345".to_vec());
    assert_eq!(parse_number(&source, &Quote::new(0, 5)).unwrap(), 12345);
    assert_eq!(parse_number(&source, &Quote::new(1, 3)).unwrap(), 23);
}

#[test]
fn parse_number_rejects_empty_and_non_digits() {
    let source = Source::new("t".to_string(), b"12a45".to_vec());
    assert_eq!(parse_number(&source, &Quote::new(0, 0)).unwrap_err().reason, Reason::InvalidNumber);
    assert_eq!(parse_number(&source, &Quote::new(0, 4)).unwrap_err().reason, Reason::InvalidNumber);
}

#[test]
fn keyword_table_is_exact() {
    assert_eq!(keyword(b"let"), Some(Symbol::Let));
    assert_eq!(keyword(b"not"), Some(Symbol::Not));
    assert_eq!(keyword(b"and"), Some(Symbol::And));
    assert_eq!(keyword(b"or"), Some(Symbol::Or));
    assert_eq!(keyword(b"xor"), Some(Symbol::Xor));
    assert_eq!(keyword(b"true"), Some(Symbol::True));
    assert_eq!(keyword(b"false"), Some(Symbol::False));
    assert_eq!(keyword(b"lets"), None);
    assert_eq!(keyword(b"Or"), None);
    assert_eq!(keyword(b""), None);
}

#[test]
fn operator_precedence_values() {
    assert_eq!(Symbol::And.precedence(), 3);
    assert_eq!(Symbol::Xor.precedence(), 2);
    assert_eq!(Symbol::Or.precedence(), 1);
    assert!(Symbol::And.is_binary_op());
    assert!(!Symbol::Number.is_binary_op());
    assert!(Symbol::Not.is_unary_op());
}

#[test]
fn allocator_assigns_bits_within_bytes() {
    let mut a = MirAllocator::default();
    for expect in [(0u16, 0u8), (0, 1), (0, 2), (0, 3), (0, 4), (0, 5), (0, 6), (0, 7), (1, 0)] {
        let addr = a.alloc1().unwrap();
        assert_eq!(addr.atype, MirAddressType::Memory1);
        assert_eq!((addr.ptr, addr.bit), expect);
    }
    assert_eq!(a.byte_offset(), 2);
}

#[test]
fn allocator_byte_word_dword_step_sizes() {
    let mut a = MirAllocator::default();
    let b = a.alloc8().unwrap();
    let w = a.alloc16().unwrap();
    let d = a.alloc32().unwrap();
    assert_eq!((b.atype, b.ptr), (MirAddressType::Memory8, 0));
    assert_eq!((w.atype, w.ptr), (MirAddressType::Memory16, 1));
    assert_eq!((d.atype, d.ptr), (MirAddressType::Memory32, 3));
    assert_eq!(a.usage(), 7);
}

#[test]
fn allocator_counters_are_sequential() {
    let mut a = MirAllocator::default();
    assert_eq!(a.alloc_counter().unwrap().ptr, 0);
    assert_eq!(a.alloc_counter().unwrap().ptr, 1);
    assert_eq!(a.alloc_counter().unwrap().atype, MirAddressType::PhysicalCounter);
}

#[test]
fn allocator_exhaustion_returns_none_at_boundary() {
    let mut a = MirAllocator::default();
    for _ in 0..65535 {
        assert!(a.alloc8().is_some());
    }
    assert_eq!(a.usage(), 65535);
    assert!(a.alloc8().is_none());
    assert!(a.alloc16().is_none());
    assert!(a.alloc32().is_none());
    assert!(!a.can_alloc_bit());
    assert!(a.alloc1().is_none());
    // Nothing was consumed by the failed attempts.
    assert_eq!(a.usage(), 65535);
}

#[test]
fn allocator_word_exhaustion_is_earlier() {
    let mut a = MirAllocator::default();
    for _ in 0..65534 {
        assert!(a.alloc8().is_some());
    }
    // One byte left: a byte still fits, a word or double word does not.
    assert!(a.alloc16().is_none());
    assert!(a.alloc32().is_none());
    assert!(a.alloc8().is_some());
}

#[test]
fn bit_pool_rounds_up_to_bytes() {
    let mut a = MirAllocator::default();
    assert_eq!(a.byte_offset(), 0);
    a.alloc1().unwrap();
    assert_eq!(a.byte_offset(), 1);
    for _ in 0..7 {
        a.alloc1().unwrap();
    }
    assert_eq!(a.byte_offset(), 1);
    a.alloc1().unwrap();
    assert_eq!(a.byte_offset(), 2);
}

#[test]
fn optimizer_is_idempotent_on_its_output() {
    let e01 = MirAddress { atype: MirAddressType::PhysicalInput1, ptr: 0, bit: 1 };
    let e02 = MirAddress { atype: MirAddressType::PhysicalInput1, ptr: 0, bit: 2 };
    let mut writer = MirInstructionWriter::default();
    writer.instructions = vec![
        MirInstruction::And { addr: e01 },
        MirInstruction::AndStart,
        MirInstruction::And { addr: e02 },
        MirInstruction::End,
    ];
    optimize(&mut writer);
    let once = writer.instructions.clone();
    assert_eq!(
        once,
        vec![MirInstruction::And { addr: e01 }, MirInstruction::And { addr: e02 }]
    );
    optimize(&mut writer);
    assert_eq!(writer.instructions, once);
}

#[test]
fn optimizer_drops_dummy_slots() {
    let e01 = MirAddress { atype: MirAddressType::PhysicalInput1, ptr: 0, bit: 1 };
    let mut writer = MirInstructionWriter::default();
    writer.instructions = vec![
        MirInstruction::Dummy,
        MirInstruction::And { addr: e01 },
        MirInstruction::Dummy,
    ];
    optimize(&mut writer);
    assert_eq!(writer.instructions, vec![MirInstruction::And { addr: e01 }]);
}

#[test]
fn address_rendering_covers_every_class() {
    let cases = [
        (S7AddressType::Input1, "E0.5"),
        (S7AddressType::Output1, "A0.5"),
        (S7AddressType::Memory1, "M0.5"),
        (S7AddressType::Counter, "C0"),
        (S7AddressType::Memory8, "MB0"),
        (S7AddressType::Memory16, "MW0"),
        (S7AddressType::Memory32, "MD0"),
    ];
    for (atype, text) in cases {
        let a = S7Address { atype, ptr: 0, bit: 5 };
        assert_eq!(a.write_awl(), text);
    }
}

#[test]
fn large_pointers_render_in_full() {
    let a = S7Address { atype: S7AddressType::Memory8, ptr: 65535, bit: 0 };
    assert_eq!(a.write_awl(), "MB65535");
}

#[test]
fn mnemonics_match_the_dialect() {
    let a = S7Address { atype: S7AddressType::Input1, ptr: 1, bit: 2 };
    assert_eq!(S7Instruction::And { addr: a }.awl_mnemonic(), "U");
    assert_eq!(S7Instruction::AndNotStart.awl_mnemonic(), "UN(");
    assert_eq!(S7Instruction::End.awl_mnemonic(), ")");
    assert_eq!(S7Instruction::SetAcc.awl_mnemonic(), "SET");
    assert_eq!(S7Instruction::CounterForward { addr: a }.awl_mnemonic(), "ZV");
    assert_eq!(S7Instruction::And { addr: a }.write_awl(), "U E1.2");
    assert_eq!(S7Instruction::Not.write_awl(), "N");
}

#[test]
fn find_var_prefers_the_latest_binding() {
    let source = Rc::new(Source::new("t".to_string(), b"aa b aa".to_vec()));
    let mut mir = Mir::new(source);
    mir.variables.push(MirVariable {
        name: Quote::new(0, 2),
        value: MirValue::Bool(MirBool { value: false }),
    });
    mir.variables.push(MirVariable {
        name: Quote::new(3, 4),
        value: MirValue::Bool(MirBool { value: false }),
    });
    mir.variables.push(MirVariable {
        name: Quote::new(5, 7),
        value: MirValue::Bool(MirBool { value: true }),
    });
    assert_eq!(mir.find_var(b"aa"), Some(2));
    assert_eq!(mir.find_var(b"b"), Some(1));
    assert_eq!(mir.find_var(b"c"), None);
}
