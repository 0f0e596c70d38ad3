//! The target instruction form: resolved addresses, the mnemonic instruction
//! set, the checked rewriting of the mid-level program, and the AWL text
//! rendering.

use vstd::prelude::*;

use crate::lir::error::Error;
use crate::mir::value::{
    is_any_byte_address_spec, is_bit_address_spec, is_physical_spec, MirAddress, MirAddressType,
};
use crate::mir::{byte_offset_spec, mir_wf, Mir, MirAction, MirInstruction};

verus! {

broadcast use vstd::seq::group_seq_axioms;

#[derive(Clone, Copy, Debug, PartialEq, Eq, Structural)]
pub enum S7AddressType {
    Input1,
    Output1,
    Memory1,
    Memory8,
    Memory16,
    Memory32,
    Counter,
}

/// A resolved target address.
#[derive(Clone, Copy, Debug, PartialEq, Eq, Structural)]
pub struct S7Address {
    pub atype: S7AddressType,
    pub ptr: u16,
    pub bit: u8,
}

pub open spec fn s7_is_bit_address(a: S7Address) -> bool {
    a.atype == S7AddressType::Input1 || a.atype == S7AddressType::Output1 || a.atype
        == S7AddressType::Memory1
}

pub open spec fn s7_is_any_byte_address(a: S7Address) -> bool {
    a.atype == S7AddressType::Memory8 || a.atype == S7AddressType::Memory16 || a.atype
        == S7AddressType::Memory32
}

impl S7Address {
    /// Checks if the address points to a `BIT`.
    pub fn is_bit_address(self) -> (r: bool)
        ensures
            r == s7_is_bit_address(self),
    {
        matches!(
            self.atype,
            S7AddressType::Input1 | S7AddressType::Output1 | S7AddressType::Memory1
        )
    }

    /// Checks if the address points to a `BYTE`, `WORD` or `DWORD`.
    pub fn is_any_byte_address(self) -> (r: bool)
        ensures
            r == s7_is_any_byte_address(self),
    {
        matches!(
            self.atype,
            S7AddressType::Memory8 | S7AddressType::Memory16 | S7AddressType::Memory32
        )
    }
}

/// A target instruction, named after its AWL mnemonic.
#[derive(Clone, Copy, Debug, PartialEq, Eq, Structural)]
pub enum S7Instruction {
    /// `U op`
    And { addr: S7Address },
    /// `UN op`
    AndNot { addr: S7Address },
    /// `O op`
    Or { addr: S7Address },
    /// `ON op`
    OrNot { addr: S7Address },
    /// `X op`
    Xor { addr: S7Address },
    /// `XN op`
    XorNot { addr: S7Address },
    /// `U(`
    AndStart,
    /// `UN(`
    AndNotStart,
    /// `O(`
    OrStart,
    /// `ON(`
    OrNotStart,
    /// `X(`
    XorStart,
    /// `XN(`
    XorNotStart,
    /// `)`
    End,
    /// `= dst`
    AssignBit { addr: S7Address },
    /// `R dst`
    ResetBit { addr: S7Address },
    /// `S dst`
    SetBit { addr: S7Address },
    /// `N`
    Not,
    /// `SET`
    SetAcc,
    /// `CLR`
    Clear,
    /// `SAVE`
    Save,
    /// `L addr`
    CounterLoadInt { addr: S7Address },
    /// `LC addr`
    CounterLoadBcd { addr: S7Address },
    /// `R addr`
    CounterReset { addr: S7Address },
    /// `S addr`
    CounterSet { addr: S7Address },
    /// `ZV addr`
    CounterForward { addr: S7Address },
    /// `ZR addr`
    CounterBackward { addr: S7Address },
    /// `T addr`
    Transfer { addr: S7Address },
}

/// One network: a self-contained block of emitted instructions.
#[derive(Debug)]
pub struct S7Network {
    pub instructions: Vec<S7Instruction>,
}

impl Default for S7Network {
    fn default() -> (r: S7Network)
        ensures
            r.instructions@ =~= Seq::<S7Instruction>::empty(),
    {
        S7Network { instructions: Vec::new() }
    }
}

/// The whole emitted program.
#[derive(Debug)]
pub struct S7Lir {
    pub networks: Vec<S7Network>,
}

impl Default for S7Lir {
    fn default() -> (r: S7Lir)
        ensures
            r.networks@ =~= Seq::<S7Network>::empty(),
    {
        S7Lir { networks: Vec::new() }
    }
}

/// The target class of a mid-level address class.
pub open spec fn s7_type_of(t: MirAddressType) -> S7AddressType {
    match t {
        MirAddressType::PhysicalInput1 => S7AddressType::Input1,
        MirAddressType::PhysicalOutput1 => S7AddressType::Output1,
        MirAddressType::PhysicalCounter => S7AddressType::Counter,
        MirAddressType::Memory1 => S7AddressType::Memory1,
        MirAddressType::Memory8 => S7AddressType::Memory8,
        MirAddressType::Memory16 => S7AddressType::Memory16,
        MirAddressType::Memory32 => S7AddressType::Memory32,
    }
}

/// Resolution of a mid-level address: byte-class (byte/word/double-word)
/// pointers are shifted past the bit pool by the allocator's byte offset,
/// modulo the 16-bit pointer space, so the bit pool and the byte pool never
/// overlap; physical addresses and memory bits pass through unchanged.
pub open spec fn resolve_addr_spec(off: nat, a: MirAddress) -> S7Address {
    S7Address {
        atype: s7_type_of(a.atype),
        ptr: if is_any_byte_address_spec(a) {
            ((off + a.ptr) % 0x10000) as u16
        } else {
            a.ptr
        },
        bit: a.bit,
    }
}

/// Resolves one address against the byte offset.
pub fn transform_address(off: usize, addr: MirAddress) -> (r: S7Address)
    requires
        off <= 65535,
    ensures
        r == resolve_addr_spec(off as nat, addr),
{
    let atype = match addr.atype {
        MirAddressType::PhysicalInput1 => S7AddressType::Input1,
        MirAddressType::PhysicalOutput1 => S7AddressType::Output1,
        MirAddressType::PhysicalCounter => S7AddressType::Counter,
        MirAddressType::Memory1 => S7AddressType::Memory1,
        MirAddressType::Memory8 => S7AddressType::Memory8,
        MirAddressType::Memory16 => S7AddressType::Memory16,
        MirAddressType::Memory32 => S7AddressType::Memory32,
    };
    let ptr = if addr.is_any_byte_address() {
        let wide = off + addr.ptr as usize;
        proof {
            assert(wide as u16 == (wide % 0x10000) as u16) by (bit_vector)
                requires wide <= 131070usize;
        }
        #[verifier::truncate] (wide as u16)
    } else {
        addr.ptr
    };
    S7Address { atype, ptr, bit: addr.bit }
}

/// Requires a bit-class address, resolved, or a non-bit-address error.
fn assert_bit(off: usize, addr: MirAddress) -> (r: Result<S7Address, Error>)
    requires
        off <= 65535,
    ensures
        if is_bit_address_spec(addr) {
            r == Ok::<S7Address, Error>(resolve_addr_spec(off as nat, addr))
        } else {
            r == Err::<S7Address, Error>(Error::NonBitAddress)
        },
{
    if !addr.is_bit_address() {
        return Err(Error::NonBitAddress);
    }
    Ok(transform_address(off, addr))
}

/// Requires a byte-class address, resolved, or a non-byte-address error.
fn assert_any_byte(off: usize, addr: MirAddress) -> (r: Result<S7Address, Error>)
    requires
        off <= 65535,
    ensures
        if is_any_byte_address_spec(addr) {
            r == Ok::<S7Address, Error>(resolve_addr_spec(off as nat, addr))
        } else {
            r == Err::<S7Address, Error>(Error::NonByteAddress)
        },
{
    if !addr.is_any_byte_address() {
        return Err(Error::NonByteAddress);
    }
    Ok(transform_address(off, addr))
}

/// Requires a physical counter address, resolved, or a non-counter-address
/// error.
fn assert_counter(off: usize, addr: MirAddress) -> (r: Result<S7Address, Error>)
    requires
        off <= 65535,
    ensures
        if addr.atype == MirAddressType::PhysicalCounter {
            r == Ok::<S7Address, Error>(resolve_addr_spec(off as nat, addr))
        } else {
            r == Err::<S7Address, Error>(Error::NonCounterAddress)
        },
{
    if !matches!(addr.atype, MirAddressType::PhysicalCounter) {
        return Err(Error::NonCounterAddress);
    }
    Ok(transform_address(off, addr))
}

/// The rewriting of one mid-level instruction at bracket depth `depth`: the
/// emitted instruction (dummies emit nothing), the new depth, or the error.
/// Bit-class operations require bit addresses, counter operations counter
/// addresses, transfers byte-class addresses; brackets may nest at most 7
/// deep and never close below depth 0.
pub open spec fn tr_one(off: nat, i: MirInstruction, depth: int) -> Result<
    (Option<S7Instruction>, int),
    Error,
> {
    match i {
        MirInstruction::Dummy => Ok((None, depth)),
        MirInstruction::And { addr } => if is_bit_address_spec(addr) {
            Ok((Some(S7Instruction::And { addr: resolve_addr_spec(off, addr) }), depth))
        } else {
            Err(Error::NonBitAddress)
        },
        MirInstruction::AndNot { addr } => if is_bit_address_spec(addr) {
            Ok((Some(S7Instruction::AndNot { addr: resolve_addr_spec(off, addr) }), depth))
        } else {
            Err(Error::NonBitAddress)
        },
        MirInstruction::Or { addr } => if is_bit_address_spec(addr) {
            Ok((Some(S7Instruction::Or { addr: resolve_addr_spec(off, addr) }), depth))
        } else {
            Err(Error::NonBitAddress)
        },
        MirInstruction::OrNot { addr } => if is_bit_address_spec(addr) {
            Ok((Some(S7Instruction::OrNot { addr: resolve_addr_spec(off, addr) }), depth))
        } else {
            Err(Error::NonBitAddress)
        },
        MirInstruction::Xor { addr } => if is_bit_address_spec(addr) {
            Ok((Some(S7Instruction::Xor { addr: resolve_addr_spec(off, addr) }), depth))
        } else {
            Err(Error::NonBitAddress)
        },
        MirInstruction::XorNot { addr } => if is_bit_address_spec(addr) {
            Ok((Some(S7Instruction::XorNot { addr: resolve_addr_spec(off, addr) }), depth))
        } else {
            Err(Error::NonBitAddress)
        },
        MirInstruction::AndStart => if depth >= 7 {
            Err(Error::InvalidStack)
        } else {
            Ok((Some(S7Instruction::AndStart), depth + 1))
        },
        MirInstruction::AndNotStart => if depth >= 7 {
            Err(Error::InvalidStack)
        } else {
            Ok((Some(S7Instruction::AndNotStart), depth + 1))
        },
        MirInstruction::OrStart => if depth >= 7 {
            Err(Error::InvalidStack)
        } else {
            Ok((Some(S7Instruction::OrStart), depth + 1))
        },
        MirInstruction::OrNotStart => if depth >= 7 {
            Err(Error::InvalidStack)
        } else {
            Ok((Some(S7Instruction::OrNotStart), depth + 1))
        },
        MirInstruction::XorStart => if depth >= 7 {
            Err(Error::InvalidStack)
        } else {
            Ok((Some(S7Instruction::XorStart), depth + 1))
        },
        MirInstruction::XorNotStart => if depth >= 7 {
            Err(Error::InvalidStack)
        } else {
            Ok((Some(S7Instruction::XorNotStart), depth + 1))
        },
        MirInstruction::End => if depth == 0 {
            Err(Error::InvalidStack)
        } else {
            Ok((Some(S7Instruction::End), depth - 1))
        },
        MirInstruction::AssignBit { addr } => if is_bit_address_spec(addr) {
            Ok((Some(S7Instruction::AssignBit { addr: resolve_addr_spec(off, addr) }), depth))
        } else {
            Err(Error::NonBitAddress)
        },
        MirInstruction::ResetBit { addr } => if is_bit_address_spec(addr) {
            Ok((Some(S7Instruction::ResetBit { addr: resolve_addr_spec(off, addr) }), depth))
        } else {
            Err(Error::NonBitAddress)
        },
        MirInstruction::SetBit { addr } => if is_bit_address_spec(addr) {
            Ok((Some(S7Instruction::SetBit { addr: resolve_addr_spec(off, addr) }), depth))
        } else {
            Err(Error::NonBitAddress)
        },
        MirInstruction::Not => Ok((Some(S7Instruction::Not), depth)),
        MirInstruction::SetAcc => Ok((Some(S7Instruction::SetAcc), depth)),
        MirInstruction::Clear => Ok((Some(S7Instruction::Clear), depth)),
        MirInstruction::Save => Ok((Some(S7Instruction::Save), depth)),
        MirInstruction::CounterLoadInt { addr } => if addr.atype
            == MirAddressType::PhysicalCounter {
            Ok((Some(S7Instruction::CounterLoadInt { addr: resolve_addr_spec(off, addr) }), depth))
        } else {
            Err(Error::NonCounterAddress)
        },
        MirInstruction::CounterLoadBcd { addr } => if addr.atype
            == MirAddressType::PhysicalCounter {
            Ok((Some(S7Instruction::CounterLoadBcd { addr: resolve_addr_spec(off, addr) }), depth))
        } else {
            Err(Error::NonCounterAddress)
        },
        MirInstruction::CounterReset { addr } => if addr.atype
            == MirAddressType::PhysicalCounter {
            Ok((Some(S7Instruction::CounterReset { addr: resolve_addr_spec(off, addr) }), depth))
        } else {
            Err(Error::NonCounterAddress)
        },
        MirInstruction::CounterSet { addr } => if addr.atype == MirAddressType::PhysicalCounter {
            Ok((Some(S7Instruction::CounterSet { addr: resolve_addr_spec(off, addr) }), depth))
        } else {
            Err(Error::NonCounterAddress)
        },
        MirInstruction::CounterForward { addr } => if addr.atype
            == MirAddressType::PhysicalCounter {
            Ok((Some(S7Instruction::CounterForward { addr: resolve_addr_spec(off, addr) }), depth))
        } else {
            Err(Error::NonCounterAddress)
        },
        MirInstruction::CounterBackward { addr } => if addr.atype
            == MirAddressType::PhysicalCounter {
            Ok(
                (
                    Some(S7Instruction::CounterBackward { addr: resolve_addr_spec(off, addr) }),
                    depth,
                ),
            )
        } else {
            Err(Error::NonCounterAddress)
        },
        MirInstruction::Transfer { addr } => if is_any_byte_address_spec(addr) {
            Ok((Some(S7Instruction::Transfer { addr: resolve_addr_spec(off, addr) }), depth))
        } else {
            Err(Error::NonByteAddress)
        },
    }
}

/// The rewriting of an instruction sequence from depth `depth`, stopping at
/// the first failure.
pub open spec fn tr_instrs(off: nat, src: Seq<MirInstruction>, depth: int) -> Result<
    (Seq<S7Instruction>, int),
    Error,
>
    decreases src.len(),
{
    if src.len() == 0 {
        Ok((Seq::empty(), depth))
    } else {
        match tr_instrs(off, src.drop_last(), depth) {
            Err(e) => Err(e),
            Ok((out, d)) => match tr_one(off, src.last(), d) {
                Err(e) => Err(e),
                Ok((ins, d2)) => Ok(
                    (
                        match ins {
                            Some(i) => out.push(i),
                            None => out,
                        },
                        d2,
                    ),
                ),
            },
        }
    }
}

/// An action's full rewriting: a network-clear marker, the body checked
/// from depth 0 back to depth 0, and — for an output action — the final
/// assignment to the (bit-class) target address, checked before the body.
pub open spec fn tr_action(off: nat, a: MirAction) -> Result<Seq<S7Instruction>, Error> {
    match a {
        MirAction::Raw(ra) => match tr_instrs(off, ra.instructions@, 0) {
            Err(e) => Err(e),
            Ok((out, d)) => if d != 0 {
                Err(Error::InvalidStack)
            } else {
                Ok(seq![S7Instruction::Clear] + out)
            },
        },
        MirAction::Output(oa) => if !is_bit_address_spec(oa.address) {
            Err(Error::NonBitAddress)
        } else {
            match tr_instrs(off, oa.instructions@, 0) {
                Err(e) => Err(e),
                Ok((out, d)) => if d != 0 {
                    Err(Error::InvalidStack)
                } else {
                    Ok(
                        seq![S7Instruction::Clear] + out + seq![
                            S7Instruction::AssignBit { addr: resolve_addr_spec(off, oa.address) },
                        ],
                    )
                },
            }
        },
    }
}

/// The whole program's rewriting: every action in order into one network,
/// stopping at the first failure.
pub open spec fn tr_actions(off: nat, actions: Seq<MirAction>) -> Result<
    Seq<S7Instruction>,
    Error,
>
    decreases actions.len(),
{
    if actions.len() == 0 {
        Ok(Seq::empty())
    } else {
        match tr_actions(off, actions.drop_last()) {
            Err(e) => Err(e),
            Ok(out) => match tr_action(off, actions.last()) {
                Err(e) => Err(e),
                Ok(a) => Ok(out + a),
            },
        }
    }
}

/// Performs one address-carrying instruction's rewriting step.
#[verifier::rlimit(100)]
#[verifier::spinoff_prover]
fn step_addr_op(off: usize, ins: MirInstruction, depth: usize, dst: &mut Vec<S7Instruction>) -> (r:
    Result<usize, Error>)
    requires
        off <= 65535,
        depth <= 7,
        crate::mir::has_addr_spec(ins),
    ensures
        match r {
            Ok(d2) => {
                &&& tr_one(off as nat, ins, depth as int) matches Ok((io, dd)) && dd == d2
                    && final(dst)@ == old(dst)@ + (match io {
                    Some(x) => seq![x],
                    None => Seq::<S7Instruction>::empty(),
                })
                &&& d2 <= 7
            },
            Err(e) => tr_one(off as nat, ins, depth as int) == Err::<
                (Option<S7Instruction>, int),
                Error,
            >(e) && final(dst)@ == old(dst)@,
        },
{
    match ins {
        MirInstruction::And { addr } => {
            match assert_bit(off, addr) {
                Ok(a) => {
                    dst.push(S7Instruction::And { addr: a });
                    Ok(depth)
                },
                Err(e) => Err(e),
            }
        },
        MirInstruction::AndNot { addr } => {
            match assert_bit(off, addr) {
                Ok(a) => {
                    dst.push(S7Instruction::AndNot { addr: a });
                    Ok(depth)
                },
                Err(e) => Err(e),
            }
        },
        MirInstruction::Or { addr } => {
            match assert_bit(off, addr) {
                Ok(a) => {
                    dst.push(S7Instruction::Or { addr: a });
                    Ok(depth)
                },
                Err(e) => Err(e),
            }
        },
        MirInstruction::OrNot { addr } => {
            match assert_bit(off, addr) {
                Ok(a) => {
                    dst.push(S7Instruction::OrNot { addr: a });
                    Ok(depth)
                },
                Err(e) => Err(e),
            }
        },
        MirInstruction::Xor { addr } => {
            match assert_bit(off, addr) {
                Ok(a) => {
                    dst.push(S7Instruction::Xor { addr: a });
                    Ok(depth)
                },
                Err(e) => Err(e),
            }
        },
        MirInstruction::XorNot { addr } => {
            match assert_bit(off, addr) {
                Ok(a) => {
                    dst.push(S7Instruction::XorNot { addr: a });
                    Ok(depth)
                },
                Err(e) => Err(e),
            }
        },
        MirInstruction::AssignBit { addr } => {
            match assert_bit(off, addr) {
                Ok(a) => {
                    dst.push(S7Instruction::AssignBit { addr: a });
                    Ok(depth)
                },
                Err(e) => Err(e),
            }
        },
        MirInstruction::ResetBit { addr } => {
            match assert_bit(off, addr) {
                Ok(a) => {
                    dst.push(S7Instruction::ResetBit { addr: a });
                    Ok(depth)
                },
                Err(e) => Err(e),
            }
        },
        MirInstruction::SetBit { addr } => {
            match assert_bit(off, addr) {
                Ok(a) => {
                    dst.push(S7Instruction::SetBit { addr: a });
                    Ok(depth)
                },
                Err(e) => Err(e),
            }
        },
        MirInstruction::CounterLoadInt { addr } => {
            match assert_counter(off, addr) {
                Ok(a) => {
                    dst.push(S7Instruction::CounterLoadInt { addr: a });
                    Ok(depth)
                },
                Err(e) => Err(e),
            }
        },
        MirInstruction::CounterLoadBcd { addr } => {
            match assert_counter(off, addr) {
                Ok(a) => {
                    dst.push(S7Instruction::CounterLoadBcd { addr: a });
                    Ok(depth)
                },
                Err(e) => Err(e),
            }
        },
        MirInstruction::CounterReset { addr } => {
            match assert_counter(off, addr) {
                Ok(a) => {
                    dst.push(S7Instruction::CounterReset { addr: a });
                    Ok(depth)
                },
                Err(e) => Err(e),
            }
        },
        MirInstruction::CounterSet { addr } => {
            match assert_counter(off, addr) {
                Ok(a) => {
                    dst.push(S7Instruction::CounterSet { addr: a });
                    Ok(depth)
                },
                Err(e) => Err(e),
            }
        },
        MirInstruction::CounterForward { addr } => {
            match assert_counter(off, addr) {
                Ok(a) => {
                    dst.push(S7Instruction::CounterForward { addr: a });
                    Ok(depth)
                },
                Err(e) => Err(e),
            }
        },
        MirInstruction::CounterBackward { addr } => {
            match assert_counter(off, addr) {
                Ok(a) => {
                    dst.push(S7Instruction::CounterBackward { addr: a });
                    Ok(depth)
                },
                Err(e) => Err(e),
            }
        },
        _ => {
            match ins {
                MirInstruction::Transfer { addr } => {
                    match assert_any_byte(off, addr) {
                        Ok(a) => {
                            dst.push(S7Instruction::Transfer { addr: a });
                            Ok(depth)
                        },
                        Err(e) => Err(e),
                    }
                },
                _ => {
                    proof {
                        assert(false);
                    }
                    Ok(depth)
                },
            }
        },
    }
}

/// Performs one instruction's rewriting step at depth `depth`, appending the
/// emitted instruction.
#[verifier::rlimit(100)]
#[verifier::spinoff_prover]
fn step_one(off: usize, ins: MirInstruction, depth: usize, dst: &mut Vec<S7Instruction>) -> (r:
    Result<usize, Error>)
    requires
        off <= 65535,
        depth <= 7,
    ensures
        match r {
            Ok(d2) => {
                &&& tr_one(off as nat, ins, depth as int) matches Ok((io, dd)) && dd == d2
                    && final(dst)@ == old(dst)@ + (match io {
                    Some(x) => seq![x],
                    None => Seq::<S7Instruction>::empty(),
                })
                &&& d2 <= 7
            },
            Err(e) => tr_one(off as nat, ins, depth as int) == Err::<
                (Option<S7Instruction>, int),
                Error,
            >(e) && final(dst)@ == old(dst)@,
        },
{
    match ins {
        MirInstruction::Dummy => {
            proof {
                assert(old(dst)@ + Seq::<S7Instruction>::empty() =~= old(dst)@);
            }
            Ok(depth)
        },
        MirInstruction::AndStart => {
            if depth >= 7 {
                return Err(Error::InvalidStack);
            }
            dst.push(S7Instruction::AndStart);
            Ok(depth + 1)
        },
        MirInstruction::AndNotStart => {
            if depth >= 7 {
                return Err(Error::InvalidStack);
            }
            dst.push(S7Instruction::AndNotStart);
            Ok(depth + 1)
        },
        MirInstruction::OrStart => {
            if depth >= 7 {
                return Err(Error::InvalidStack);
            }
            dst.push(S7Instruction::OrStart);
            Ok(depth + 1)
        },
        MirInstruction::OrNotStart => {
            if depth >= 7 {
                return Err(Error::InvalidStack);
            }
            dst.push(S7Instruction::OrNotStart);
            Ok(depth + 1)
        },
        MirInstruction::XorStart => {
            if depth >= 7 {
                return Err(Error::InvalidStack);
            }
            dst.push(S7Instruction::XorStart);
            Ok(depth + 1)
        },
        MirInstruction::XorNotStart => {
            if depth >= 7 {
                return Err(Error::InvalidStack);
            }
            dst.push(S7Instruction::XorNotStart);
            Ok(depth + 1)
        },
        MirInstruction::End => {
            if depth == 0 {
                return Err(Error::InvalidStack);
            }
            dst.push(S7Instruction::End);
            Ok(depth - 1)
        },
        MirInstruction::Not => {
            dst.push(S7Instruction::Not);
            Ok(depth)
        },
        MirInstruction::SetAcc => {
            dst.push(S7Instruction::SetAcc);
            Ok(depth)
        },
        MirInstruction::Clear => {
            dst.push(S7Instruction::Clear);
            Ok(depth)
        },
        MirInstruction::Save => {
            dst.push(S7Instruction::Save);
            Ok(depth)
        },
        _ => step_addr_op(off, ins, depth, dst),
    }
}

/// The instructions emitted before the first failure (all of them when
/// nothing fails).
pub open spec fn tr_partial(off: nat, src: Seq<MirInstruction>, depth: int) -> Seq<S7Instruction>
    decreases src.len(),
{
    if src.len() == 0 {
        Seq::empty()
    } else {
        match tr_one(off, src[0], depth) {
            Err(_) => Seq::empty(),
            Ok((io, d2)) => (match io {
                Some(x) => seq![x],
                None => Seq::<S7Instruction>::empty(),
            }) + tr_partial(off, src.drop_first(), d2),
        }
    }
}

/// A successfully rewritten prefix contributes its output to the partial
/// rewriting verbatim.
proof fn lemma_tr_partial_split(off: nat, s: Seq<MirInstruction>, i: int, d0: int)
    requires
        0 <= i <= s.len(),
        tr_instrs(off, s.subrange(0, i), d0) is Ok,
    ensures
        ({
            let (o, d) = tr_instrs(off, s.subrange(0, i), d0)->Ok_0;
            tr_partial(off, s, d0) == o + tr_partial(off, s.subrange(i, s.len() as int), d)
        }),
    decreases i,
{
    if i == 0 {
        assert(s.subrange(0, 0) =~= Seq::<MirInstruction>::empty());
        assert(s.subrange(0, s.len() as int) =~= s);
        assert(tr_partial(off, s, d0) =~= Seq::empty() + tr_partial(off, s, d0));
    } else {
        assert(s.subrange(0, i).drop_last() =~= s.subrange(0, i - 1));
        assert(s.subrange(0, i).last() == s[i - 1]);
        lemma_tr_partial_split(off, s, i - 1, d0);
        let (o1, d1) = tr_instrs(off, s.subrange(0, i - 1), d0)->Ok_0;
        let (o, d) = tr_instrs(off, s.subrange(0, i), d0)->Ok_0;
        assert(s.subrange(i - 1, s.len() as int)[0] == s[i - 1]);
        assert(s.subrange(i - 1, s.len() as int).drop_first() =~= s.subrange(i, s.len() as int));
        assert(tr_partial(off, s, d0) =~= o + tr_partial(off, s.subrange(i, s.len() as int), d));
    }
}

/// Rewrites one action's instruction body, appending to the network.
fn transform_instructions(
    off: usize,
    src: &Vec<MirInstruction>,
    dst: &mut Vec<S7Instruction>,
) -> (r: Result<(), Error>)
    requires
        off <= 65535,
    ensures
        match r {
            Ok(()) => {
                &&& tr_instrs(off as nat, src@, 0) matches Ok((out, d))
                &&& d == 0
                &&& final(dst)@ == old(dst)@ + (match tr_instrs(off as nat, src@, 0) {
                    Ok((out, _)) => out,
                    Err(_) => Seq::empty(),
                })
            },
            Err(e) => (match tr_instrs(off as nat, src@, 0) {
                Ok((_, d)) => d != 0 && e == Error::InvalidStack,
                Err(e2) => e == e2,
            }),
        },
        r is Err ==> final(dst)@ == old(dst)@ + tr_partial(off as nat, src@, 0),
{
    let ghost s = src@;
    let n = src.len();
    let ghost start = dst@;
    let mut depth: usize = 0;
    let mut i: usize = 0;
    proof {
        assert(s.subrange(0, 0) =~= Seq::<MirInstruction>::empty());
    }
    while i < n
        invariant
            n == s.len(),
            0 <= i <= n,
            s == src@,
            start == old(dst)@,
            off <= 65535,
            depth <= 7,
            ({
                let t = tr_instrs(off as nat, s.subrange(0, i as int), 0);
                &&& t matches Ok((out, d))
                &&& d == depth
                &&& dst@ == start + (match t {
                    Ok((out, _)) => out,
                    Err(_) => Seq::empty(),
                })
            }),
        decreases n - i,
    {
        let ghost pre = s.subrange(0, i as int);
        proof {
            assert(s.subrange(0, i + 1 as int).drop_last() =~= pre);
            assert(s.subrange(0, i + 1 as int).last() == s[i as int]);
        }
        match step_one(off, src[i], depth, dst) {
            Ok(d2) => {
                depth = d2;
            },
            Err(e) => {
                proof {
                    lemma_tr_err_extend(off as nat, s, i as int);
                    lemma_tr_partial_split(off as nat, s, i as int, 0);
                    assert(s.subrange(i as int, n as int)[0] == s[i as int]);
                    let (o, d) = tr_instrs(off as nat, s.subrange(0, i as int), 0)->Ok_0;
                    assert(s.subrange(i as int, n as int)[0] == s[i as int]);
                    assert(tr_partial(off as nat, s.subrange(i as int, n as int), d) =~= Seq::<
                        S7Instruction,
                    >::empty());
                    assert(o + Seq::<S7Instruction>::empty() =~= o);
                    assert(dst@ == start + tr_partial(off as nat, s, 0));
                }
                return Err(e);
            },
        }
        i = i + 1;
    }
    proof {
        assert(s.subrange(0, n as int) =~= s);
        lemma_tr_partial_split(off as nat, s, n as int, 0);
        assert(s.subrange(n as int, n as int) =~= Seq::<MirInstruction>::empty());
        let (o, d) = tr_instrs(off as nat, s, 0)->Ok_0;
        assert(o + Seq::<S7Instruction>::empty() =~= o);
        assert(dst@ == start + tr_partial(off as nat, s, 0));
    }
    if depth != 0 {
        return Err(Error::InvalidStack);
    }
    Ok(())
}

/// A rewriting that has failed on a prefix fails on the whole sequence
/// with the same error.
proof fn lemma_tr_err_extend(off: nat, s: Seq<MirInstruction>, i: int)
    requires
        0 <= i < s.len(),
        tr_instrs(off, s.subrange(0, i + 1), 0) is Err,
    ensures
        tr_instrs(off, s, 0) == tr_instrs(off, s.subrange(0, i + 1), 0),
    decreases s.len() - i,
{
    if i + 1 == s.len() {
        assert(s.subrange(0, i + 1) =~= s);
    } else {
        assert(s.subrange(0, i + 2).drop_last() =~= s.subrange(0, i + 1));
        lemma_tr_err_extend(off, s, i + 1);
    }
}

/// Rewrites one action into the (single) network.
fn transform_action(off: usize, action: &MirAction, network: &mut Vec<S7Instruction>) -> (r:
    Result<(), Error>)
    requires
        off <= 65535,
    ensures
        match r {
            Ok(()) => tr_action(off as nat, *action) matches Ok(out) && final(network)@ == old(
                network,
            )@ + out,
            Err(e) => tr_action(off as nat, *action) == Err::<Seq<S7Instruction>, Error>(e),
        },
{
    let ghost start = network@;
    network.push(S7Instruction::Clear);
    match action {
        MirAction::Raw(raw) => {
            match transform_instructions(off, &raw.instructions, network) {
                Ok(()) => (),
                Err(e) => {
                    return Err(e);
                },
            }
            proof {
                assert(network@ =~= start + (seq![S7Instruction::Clear] + (match tr_instrs(
                    off as nat,
                    raw.instructions@,
                    0,
                ) {
                    Ok((out, _)) => out,
                    Err(_) => Seq::empty(),
                })));
            }
            Ok(())
        },
        MirAction::Output(output) => {
            let addr = match assert_bit(off, output.address) {
                Ok(a) => a,
                Err(e) => {
                    return Err(e);
                },
            };
            match transform_instructions(off, &output.instructions, network) {
                Ok(()) => (),
                Err(e) => {
                    return Err(e);
                },
            }
            network.push(S7Instruction::AssignBit { addr });
            proof {
                assert(network@ =~= start + (seq![S7Instruction::Clear] + (match tr_instrs(
                    off as nat,
                    output.instructions@,
                    0,
                ) {
                    Ok((out, _)) => out,
                    Err(_) => Seq::empty(),
                }) + seq![
                    S7Instruction::AssignBit {
                        addr: resolve_addr_spec(off as nat, output.address),
                    },
                ]));
            }
            Ok(())
        },
    }
}

/// A whole-program rewriting that has failed on an action prefix fails on
/// the whole action list with the same error.
proof fn lemma_tr_actions_err_extend(off: nat, s: Seq<MirAction>, i: int)
    requires
        0 <= i < s.len(),
        tr_actions(off, s.subrange(0, i + 1)) is Err,
    ensures
        tr_actions(off, s) == tr_actions(off, s.subrange(0, i + 1)),
    decreases s.len() - i,
{
    if i + 1 == s.len() {
        assert(s.subrange(0, i + 1) =~= s);
    } else {
        assert(s.subrange(0, i + 2).drop_last() =~= s.subrange(0, i + 1));
        lemma_tr_actions_err_extend(off, s, i + 1);
    }
}

/// Rewrites the whole mid-level program into one network, validating every
/// instruction's address class and the bracket nesting.
pub fn transform(mir: &Mir) -> (r: Result<S7Lir, Error>)
    requires
        mir_wf(*mir),
    ensures
        ({
            let off = byte_offset_spec(mir.allocator);
            match r {
                Ok(lir) => {
                    &&& lir.networks@.len() == 1
                    &&& tr_actions(off, mir.actions@) == Ok::<Seq<S7Instruction>, Error>(
                        lir.networks@[0].instructions@,
                    )
                },
                Err(e) => tr_actions(off, mir.actions@) == Err::<Seq<S7Instruction>, Error>(e),
            }
        }),
{
    let off = mir.allocator.byte_offset();
    let ghost acts = mir.actions@;
    let n = mir.actions.len();
    let mut network: Vec<S7Instruction> = Vec::new();
    let mut i: usize = 0;
    proof {
        assert(acts.subrange(0, 0) =~= Seq::<MirAction>::empty());
    }
    while i < n
        invariant
            n == acts.len(),
            acts == mir.actions@,
            0 <= i <= n,
            off <= 65535,
            off == byte_offset_spec(mir.allocator),
            tr_actions(off as nat, acts.subrange(0, i as int)) == Ok::<
                Seq<S7Instruction>,
                Error,
            >(network@),
        decreases n - i,
    {
        proof {
            assert(acts.subrange(0, i + 1 as int).drop_last() =~= acts.subrange(0, i as int));
            assert(acts.subrange(0, i + 1 as int).last() == acts[i as int]);
        }
        match transform_action(off, &mir.actions[i], &mut network) {
            Ok(()) => (),
            Err(e) => {
                proof {
                    lemma_tr_actions_err_extend(off as nat, acts, i as int);
                }
                return Err(e);
            },
        }
        i = i + 1;
    }
    proof {
        assert(acts.subrange(0, n as int) =~= acts);
    }
    let mut networks: Vec<S7Network> = Vec::new();
    networks.push(S7Network { instructions: network });
    Ok(S7Lir { networks })
}

} // verus!

verus! {

/// The characters of one decimal digit.
pub open spec fn digit_chars(d: nat) -> Seq<char> {
    if d == 0 {
        "0"@
    } else if d == 1 {
        "1"@
    } else if d == 2 {
        "2"@
    } else if d == 3 {
        "3"@
    } else if d == 4 {
        "4"@
    } else if d == 5 {
        "5"@
    } else if d == 6 {
        "6"@
    } else if d == 7 {
        "7"@
    } else if d == 8 {
        "8"@
    } else {
        "9"@
    }
}

/// The decimal rendering of a number, most significant digit first.
pub open spec fn dec_chars(n: nat) -> Seq<char>
    decreases n,
{
    if n < 10 {
        digit_chars(n)
    } else {
        dec_chars(n / 10) + digit_chars(n % 10)
    }
}

/// Appends the decimal rendering of `n`.
fn push_dec(out: &mut String, n: u16)
    ensures
        final(out)@ == old(out)@ + dec_chars(n as nat),
    decreases n,
{
    let ghost start = out@;
    if n >= 10 {
        push_dec(out, n / 10);
    }
    let d = n % 10;
    if d == 0 {
        out.append("0");
    } else if d == 1 {
        out.append("1");
    } else if d == 2 {
        out.append("2");
    } else if d == 3 {
        out.append("3");
    } else if d == 4 {
        out.append("4");
    } else if d == 5 {
        out.append("5");
    } else if d == 6 {
        out.append("6");
    } else if d == 7 {
        out.append("7");
    } else if d == 8 {
        out.append("8");
    } else {
        out.append("9");
    }
    proof {
        if n >= 10 {
            assert(out@ =~= start + (dec_chars(n as nat / 10) + digit_chars(n as nat % 10)));
        }
    }
}

/// The AWL mnemonic of each instruction.
pub open spec fn mnemonic_chars(i: S7Instruction) -> Seq<char> {
    match i {
        S7Instruction::And { .. } => "U"@,
        S7Instruction::AndNot { .. } => "UN"@,
        S7Instruction::Or { .. } => "O"@,
        S7Instruction::OrNot { .. } => "ON"@,
        S7Instruction::Xor { .. } => "X"@,
        S7Instruction::XorNot { .. } => "XN"@,
        S7Instruction::AndStart => "U("@,
        S7Instruction::AndNotStart => "UN("@,
        S7Instruction::OrStart => "O("@,
        S7Instruction::OrNotStart => "ON("@,
        S7Instruction::XorStart => "X("@,
        S7Instruction::XorNotStart => "XN("@,
        S7Instruction::End => ")"@,
        S7Instruction::AssignBit { .. } => "="@,
        S7Instruction::ResetBit { .. } => "R"@,
        S7Instruction::SetBit { .. } => "S"@,
        S7Instruction::Not => "N"@,
        S7Instruction::SetAcc => "SET"@,
        S7Instruction::Clear => "CLR"@,
        S7Instruction::Save => "SAVE"@,
        S7Instruction::CounterLoadInt { .. } => "L"@,
        S7Instruction::CounterLoadBcd { .. } => "LC"@,
        S7Instruction::CounterReset { .. } => "R"@,
        S7Instruction::CounterSet { .. } => "S"@,
        S7Instruction::CounterForward { .. } => "ZV"@,
        S7Instruction::CounterBackward { .. } => "ZR"@,
        S7Instruction::Transfer { .. } => "T"@,
    }
}

/// The operand an instruction renders, if it has one.
pub open spec fn addr_opt(i: S7Instruction) -> Option<S7Address> {
    match i {
        S7Instruction::And { addr } => Some(addr),
        S7Instruction::AndNot { addr } => Some(addr),
        S7Instruction::Or { addr } => Some(addr),
        S7Instruction::OrNot { addr } => Some(addr),
        S7Instruction::Xor { addr } => Some(addr),
        S7Instruction::XorNot { addr } => Some(addr),
        S7Instruction::AssignBit { addr } => Some(addr),
        S7Instruction::ResetBit { addr } => Some(addr),
        S7Instruction::SetBit { addr } => Some(addr),
        S7Instruction::CounterLoadInt { addr } => Some(addr),
        S7Instruction::CounterLoadBcd { addr } => Some(addr),
        S7Instruction::CounterReset { addr } => Some(addr),
        S7Instruction::CounterSet { addr } => Some(addr),
        S7Instruction::CounterForward { addr } => Some(addr),
        S7Instruction::CounterBackward { addr } => Some(addr),
        S7Instruction::Transfer { addr } => Some(addr),
        _ => None,
    }
}

/// The one- or two-letter class prefix of a rendered address.
pub open spec fn prefix_chars(t: S7AddressType) -> Seq<char> {
    match t {
        S7AddressType::Input1 => "E"@,
        S7AddressType::Output1 => "A"@,
        S7AddressType::Memory1 => "M"@,
        S7AddressType::Memory8 => "MB"@,
        S7AddressType::Memory16 => "MW"@,
        S7AddressType::Memory32 => "MD"@,
        S7AddressType::Counter => "C"@,
    }
}

/// A rendered address: class prefix, pointer, and — for bit-class addresses
/// only — a dot and the bit index.
pub open spec fn awl_addr_chars(a: S7Address) -> Seq<char> {
    prefix_chars(a.atype) + dec_chars(a.ptr as nat) + (if s7_is_bit_address(a) {
        "."@ + dec_chars(a.bit as nat)
    } else {
        Seq::empty()
    })
}

/// One rendered instruction line: the mnemonic, then a space and the
/// operand where the opcode has one.
pub open spec fn awl_line_chars(i: S7Instruction) -> Seq<char> {
    mnemonic_chars(i) + (match addr_opt(i) {
        Some(a) => " "@ + awl_addr_chars(a),
        None => Seq::empty(),
    })
}

/// Every instruction on its own newline-terminated line.
pub open spec fn awl_network_chars(instrs: Seq<S7Instruction>) -> Seq<char>
    decreases instrs.len(),
{
    if instrs.len() == 0 {
        Seq::empty()
    } else {
        awl_network_chars(instrs.drop_last()) + awl_line_chars(instrs.last()) + "\n"@
    }
}

impl S7Instruction {
    /// The fixed mnemonic text of this instruction.
    pub fn awl_mnemonic(self) -> (r: &'static str)
        ensures
            r@ == mnemonic_chars(self),
    {
        match self {
            S7Instruction::And { .. } => "U",
            S7Instruction::AndNot { .. } => "UN",
            S7Instruction::Or { .. } => "O",
            S7Instruction::OrNot { .. } => "ON",
            S7Instruction::Xor { .. } => "X",
            S7Instruction::XorNot { .. } => "XN",
            S7Instruction::AndStart => "U(",
            S7Instruction::AndNotStart => "UN(",
            S7Instruction::OrStart => "O(",
            S7Instruction::OrNotStart => "ON(",
            S7Instruction::XorStart => "X(",
            S7Instruction::XorNotStart => "XN(",
            S7Instruction::End => ")",
            S7Instruction::AssignBit { .. } => "=",
            S7Instruction::ResetBit { .. } => "R",
            S7Instruction::SetBit { .. } => "S",
            S7Instruction::Not => "N",
            S7Instruction::SetAcc => "SET",
            S7Instruction::Clear => "CLR",
            S7Instruction::Save => "SAVE",
            S7Instruction::CounterLoadInt { .. } => "L",
            S7Instruction::CounterLoadBcd { .. } => "LC",
            S7Instruction::CounterReset { .. } => "R",
            S7Instruction::CounterSet { .. } => "S",
            S7Instruction::CounterForward { .. } => "ZV",
            S7Instruction::CounterBackward { .. } => "ZR",
            S7Instruction::Transfer { .. } => "T",
        }
    }

    /// The operand this instruction renders, if it has one.
    pub fn addr(self) -> (r: Option<S7Address>)
        ensures
            r == addr_opt(self),
    {
        match self {
            S7Instruction::And { addr } => Some(addr),
            S7Instruction::AndNot { addr } => Some(addr),
            S7Instruction::Or { addr } => Some(addr),
            S7Instruction::OrNot { addr } => Some(addr),
            S7Instruction::Xor { addr } => Some(addr),
            S7Instruction::XorNot { addr } => Some(addr),
            S7Instruction::AssignBit { addr } => Some(addr),
            S7Instruction::ResetBit { addr } => Some(addr),
            S7Instruction::SetBit { addr } => Some(addr),
            S7Instruction::CounterLoadInt { addr } => Some(addr),
            S7Instruction::CounterLoadBcd { addr } => Some(addr),
            S7Instruction::CounterReset { addr } => Some(addr),
            S7Instruction::CounterSet { addr } => Some(addr),
            S7Instruction::CounterForward { addr } => Some(addr),
            S7Instruction::CounterBackward { addr } => Some(addr),
            S7Instruction::Transfer { addr } => Some(addr),
            _ => None,
        }
    }

    /// Renders this instruction as its AWL line (without the newline).
    pub fn write_awl(&self) -> (r: String)
        ensures
            r@ == awl_line_chars(*self),
    {
        let mut out = String::new();
        out.append(self.awl_mnemonic());
        match self.addr() {
            Some(a) => {
                out.append(" ");
                let rendered = a.write_awl();
                out.append(rendered.as_str());
                proof {
                    assert(out@ =~= awl_line_chars(*self));
                }
            },
            None => {
                proof {
                    assert(out@ =~= awl_line_chars(*self));
                }
            },
        }
        out
    }
}

impl S7Address {
    /// Renders this address: class prefix, pointer, and the bit index for
    /// bit-class addresses.
    pub fn write_awl(&self) -> (r: String)
        ensures
            r@ == awl_addr_chars(*self),
    {
        let mut out = String::new();
        match self.atype {
            S7AddressType::Input1 => out.append("E"),
            S7AddressType::Output1 => out.append("A"),
            S7AddressType::Memory1 => out.append("M"),
            S7AddressType::Memory8 => out.append("MB"),
            S7AddressType::Memory16 => out.append("MW"),
            S7AddressType::Memory32 => out.append("MD"),
            S7AddressType::Counter => out.append("C"),
        }
        push_dec(&mut out, self.ptr);
        if self.is_bit_address() {
            out.append(".");
            push_dec(&mut out, self.bit as u16);
        }
        proof {
            assert(out@ =~= awl_addr_chars(*self));
        }
        out
    }
}

impl S7Network {
    /// Renders the network: one newline-terminated AWL line per instruction.
    pub fn write_awl(&self) -> (r: String)
        ensures
            r@ == awl_network_chars(self.instructions@),
    {
        let ghost instrs = self.instructions@;
        let mut out = String::new();
        let n = self.instructions.len();
        let mut i: usize = 0;
        proof {
            assert(instrs.subrange(0, 0) =~= Seq::<S7Instruction>::empty());
        }
        while i < n
            invariant
                n == instrs.len(),
                instrs == self.instructions@,
                0 <= i <= n,
                out@ == awl_network_chars(instrs.subrange(0, i as int)),
            decreases n - i,
        {
            proof {
                assert(instrs.subrange(0, i + 1 as int).drop_last() =~= instrs.subrange(
                    0,
                    i as int,
                ));
                assert(instrs.subrange(0, i + 1 as int).last() == instrs[i as int]);
            }
            let line = self.instructions[i].write_awl();
            out.append(line.as_str());
            out.append("\n");
            proof {
                assert(out@ =~= awl_network_chars(instrs.subrange(0, i + 1 as int)));
            }
            i = i + 1;
        }
        proof {
            assert(instrs.subrange(0, n as int) =~= instrs);
        }
        out
    }
}

} // verus!
