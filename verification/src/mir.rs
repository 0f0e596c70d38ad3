//! The mid-level representation: the bump allocator for memory and counter
//! addresses, the variable bindings, the compiled actions, and the
//! stack-machine instruction set.

pub mod builtin;
pub mod ops;
pub mod optimizer;
pub mod transformer;
pub mod value;
pub mod writer;

use vstd::prelude::*;
use std::rc::Rc;

use crate::hir::name_wf;
use crate::util::{Quote, Source};
use self::value::{stored_ok, MirAddress, MirAddressType, MirValue};

verus! {

/// Compares two byte slices for equality.
pub fn bytes_eq(a: &[u8], b: &[u8]) -> (r: bool)
    ensures
        r == (a@ == b@),
{
    if a.len() != b.len() {
        proof {
            assert(a@ != b@);
        }
        return false;
    }
    let n = a.len();
    let mut i: usize = 0;
    while i < n
        invariant
            n == a@.len() == b@.len(),
            0 <= i <= n,
            forall|k: int| 0 <= k < i ==> a@[k] == b@[k],
        decreases n - i,
    {
        if a[i] != b[i] {
            proof {
                assert(a@[i as int] != b@[i as int]);
            }
            return false;
        }
        i = i + 1;
    }
    proof {
        assert(a@ =~= b@);
    }
    true
}

/// Bump allocator for virtual memory (bits and bytes) and physical counters.
/// Counters only ever increase; allocation fails once the combined bit and
/// byte usage would leave the 16-bit pointer space.
#[derive(Debug)]
pub struct MirAllocator {
    pub allocated_bits: usize,
    pub allocated_bytes: usize,
    pub allocated_counters: u16,
}

/// The allocator counts stay small enough that every derived quantity fits
/// comfortably in `usize` and every assigned pointer fits in `u16`.
pub open spec fn allocator_wf(a: MirAllocator) -> bool {
    a.allocated_bits <= 8 * 65535 && a.allocated_bytes <= 65535
}

/// Number of bytes covered by the allocated bit pool: `ceil(bits / 8)`.
pub open spec fn byte_offset_spec(a: MirAllocator) -> nat {
    if a.allocated_bits % 8 != 0 {
        (a.allocated_bits / 8 + 1) as nat
    } else {
        (a.allocated_bits / 8) as nat
    }
}

/// Combined usage of the byte-addressable pool: bit pool (in bytes) plus
/// allocated bytes.
pub open spec fn usage_spec(a: MirAllocator) -> nat {
    (byte_offset_spec(a) + a.allocated_bytes) as nat
}

/// A bit can be allocated while its byte is already begun or a fresh byte
/// still fits under the usage limit.
pub open spec fn can_alloc_bit_spec(a: MirAllocator) -> bool {
    a.allocated_bits % 8 != 0 || usage_spec(a) < 65535
}

impl Default for MirAllocator {
    fn default() -> (r: MirAllocator)
        ensures
            r.allocated_bits == 0,
            r.allocated_bytes == 0,
            r.allocated_counters == 0,
    {
        MirAllocator { allocated_bits: 0, allocated_bytes: 0, allocated_counters: 0 }
    }
}

impl MirAllocator {
    /// The byte offset that places the byte pool after the bit pool.
    pub fn byte_offset(&self) -> (r: usize)
        requires
            allocator_wf(*self),
        ensures
            r == byte_offset_spec(*self),
    {
        if self.allocated_bits % 8 != 0 {
            self.allocated_bits / 8 + 1
        } else {
            self.allocated_bits / 8
        }
    }

    /// Combined bit-pool and byte-pool usage, in bytes.
    pub fn usage(&self) -> (r: usize)
        requires
            allocator_wf(*self),
        ensures
            r == usage_spec(*self),
    {
        self.byte_offset() + self.allocated_bytes
    }

    pub fn can_alloc_bit(&self) -> (r: bool)
        requires
            allocator_wf(*self),
        ensures
            r == can_alloc_bit_spec(*self),
    {
        self.allocated_bits % 8 != 0 || self.usage() < 65535
    }

    /// Allocates one memory bit, or returns `None` exactly when the pool is
    /// exhausted.
    pub fn alloc1(&mut self) -> (r: Option<MirAddress>)
        requires
            allocator_wf(*old(self)),
        ensures
            allocator_wf(*final(self)),
            final(self).allocated_bytes == old(self).allocated_bytes,
            final(self).allocated_counters == old(self).allocated_counters,
            if can_alloc_bit_spec(*old(self)) {
                &&& final(self).allocated_bits == old(self).allocated_bits + 1
                &&& r == Some(
                    MirAddress {
                        atype: MirAddressType::Memory1,
                        ptr: (old(self).allocated_bits / 8) as u16,
                        bit: (old(self).allocated_bits % 8) as u8,
                    },
                )
            } else {
                r is None && *final(self) == *old(self)
            },
    {
        if !self.can_alloc_bit() {
            return None;
        }
        let ptr = self.allocated_bits;
        self.allocated_bits = self.allocated_bits + 1;
        Some(
            MirAddress {
                atype: MirAddressType::Memory1,
                ptr: (ptr / 8) as u16,
                bit: (ptr % 8) as u8,
            },
        )
    }

    /// Allocates one memory byte, or returns `None` exactly when usage has
    /// reached the 65535-byte boundary.
    pub fn alloc8(&mut self) -> (r: Option<MirAddress>)
        requires
            allocator_wf(*old(self)),
        ensures
            allocator_wf(*final(self)),
            final(self).allocated_bits == old(self).allocated_bits,
            final(self).allocated_counters == old(self).allocated_counters,
            if usage_spec(*old(self)) < 65535 {
                &&& final(self).allocated_bytes == old(self).allocated_bytes + 1
                &&& r == Some(
                    MirAddress {
                        atype: MirAddressType::Memory8,
                        ptr: old(self).allocated_bytes as u16,
                        bit: 0u8,
                    },
                )
            } else {
                r is None && *final(self) == *old(self)
            },
    {
        if self.usage() >= 65535 {
            return None;
        }
        let ptr = self.allocated_bytes;
        self.allocated_bytes = self.allocated_bytes + 1;
        Some(MirAddress { atype: MirAddressType::Memory8, ptr: ptr as u16, bit: 0 })
    }

    /// Allocates one memory word (two bytes), or returns `None` exactly when
    /// both bytes no longer fit.
    pub fn alloc16(&mut self) -> (r: Option<MirAddress>)
        requires
            allocator_wf(*old(self)),
        ensures
            allocator_wf(*final(self)),
            final(self).allocated_bits == old(self).allocated_bits,
            final(self).allocated_counters == old(self).allocated_counters,
            if usage_spec(*old(self)) < 65534 {
                &&& final(self).allocated_bytes == old(self).allocated_bytes + 2
                &&& r == Some(
                    MirAddress {
                        atype: MirAddressType::Memory16,
                        ptr: old(self).allocated_bytes as u16,
                        bit: 0u8,
                    },
                )
            } else {
                r is None && *final(self) == *old(self)
            },
    {
        if self.usage() >= 65534 {
            return None;
        }
        let ptr = self.allocated_bytes;
        self.allocated_bytes = self.allocated_bytes + 2;
        Some(MirAddress { atype: MirAddressType::Memory16, ptr: ptr as u16, bit: 0 })
    }

    /// Allocates one memory double word (four bytes), or returns `None`
    /// exactly when the four bytes no longer fit.
    pub fn alloc32(&mut self) -> (r: Option<MirAddress>)
        requires
            allocator_wf(*old(self)),
        ensures
            allocator_wf(*final(self)),
            final(self).allocated_bits == old(self).allocated_bits,
            final(self).allocated_counters == old(self).allocated_counters,
            if usage_spec(*old(self)) < 65532 {
                &&& final(self).allocated_bytes == old(self).allocated_bytes + 4
                &&& r == Some(
                    MirAddress {
                        atype: MirAddressType::Memory32,
                        ptr: old(self).allocated_bytes as u16,
                        bit: 0u8,
                    },
                )
            } else {
                r is None && *final(self) == *old(self)
            },
    {
        if self.usage() >= 65532 {
            return None;
        }
        let ptr = self.allocated_bytes;
        self.allocated_bytes = self.allocated_bytes + 4;
        Some(MirAddress { atype: MirAddressType::Memory32, ptr: ptr as u16, bit: 0 })
    }

    /// Allocates one physical counter, or returns `None` exactly when all
    /// 65535 counters are taken.
    pub fn alloc_counter(&mut self) -> (r: Option<MirAddress>)
        requires
            allocator_wf(*old(self)),
        ensures
            allocator_wf(*final(self)),
            final(self).allocated_bits == old(self).allocated_bits,
            final(self).allocated_bytes == old(self).allocated_bytes,
            if old(self).allocated_counters < 65535 {
                &&& final(self).allocated_counters == old(self).allocated_counters + 1
                &&& r == Some(
                    MirAddress {
                        atype: MirAddressType::PhysicalCounter,
                        ptr: old(self).allocated_counters,
                        bit: 0u8,
                    },
                )
            } else {
                r is None && *final(self) == *old(self)
            },
    {
        let ptr = self.allocated_counters;
        if ptr >= 65535 {
            return None;
        }
        self.allocated_counters = self.allocated_counters + 1;
        Some(MirAddress { atype: MirAddressType::PhysicalCounter, ptr, bit: 0 })
    }
}

/// A named binding: the name's byte range in the source and its current
/// value.
#[derive(Debug)]
pub struct MirVariable {
    pub name: Quote,
    pub value: MirValue,
}

/// One compiled action, in program order.
#[derive(Debug)]
pub enum MirAction {
    Raw(MirRawAction),
    Output(MirOutputAction),
}

/// The serialized instructions of a bare call statement.
#[derive(Debug)]
pub struct MirRawAction {
    pub instructions: Vec<MirInstruction>,
}

/// A write to a physical output: the target address and the serialized,
/// optimized instructions that compute the written bit.
#[derive(Debug)]
pub struct MirOutputAction {
    pub address: MirAddress,
    pub instructions: Vec<MirInstruction>,
}

/// A stack-machine instruction, named after its AWL mnemonic.
#[derive(Clone, Copy, Debug, PartialEq, Eq, Structural)]
pub enum MirInstruction {
    /// Nulled-out slot left behind by the optimizer.
    Dummy,
    /// `U op`
    And { addr: MirAddress },
    /// `UN op`
    AndNot { addr: MirAddress },
    /// `O op`
    Or { addr: MirAddress },
    /// `ON op`
    OrNot { addr: MirAddress },
    /// `X op`
    Xor { addr: MirAddress },
    /// `XN op`
    XorNot { addr: MirAddress },
    /// `U(`
    AndStart,
    /// `UN(`
    AndNotStart,
    /// `O(`
    OrStart,
    /// `ON(`
    OrNotStart,
    /// `X(`
    XorStart,
    /// `XN(`
    XorNotStart,
    /// `)`
    End,
    /// `= dst`
    AssignBit { addr: MirAddress },
    /// `R dst`
    ResetBit { addr: MirAddress },
    /// `S dst`
    SetBit { addr: MirAddress },
    /// `N`
    Not,
    /// `SET`
    SetAcc,
    /// `CLR`
    Clear,
    /// `SAVE`
    Save,
    /// `L addr`
    CounterLoadInt { addr: MirAddress },
    /// `LC addr`
    CounterLoadBcd { addr: MirAddress },
    /// `R addr`
    CounterReset { addr: MirAddress },
    /// `S addr`
    CounterSet { addr: MirAddress },
    /// `ZV addr`
    CounterForward { addr: MirAddress },
    /// `ZR addr`
    CounterBackward { addr: MirAddress },
    /// `T addr`
    Transfer { addr: MirAddress },
}

/// The bracket-opening instructions.
pub open spec fn has_bracket_spec(i: MirInstruction) -> bool {
    i == MirInstruction::AndStart || i == MirInstruction::AndNotStart || i
        == MirInstruction::OrStart || i == MirInstruction::OrNotStart || i
        == MirInstruction::XorStart || i == MirInstruction::XorNotStart
}

/// The instructions that carry an address.
pub open spec fn has_addr_spec(i: MirInstruction) -> bool {
    match i {
        MirInstruction::And { .. } | MirInstruction::AndNot { .. } | MirInstruction::Or {
            ..
        } | MirInstruction::OrNot { .. } | MirInstruction::Xor { .. } | MirInstruction::XorNot {
            ..
        } | MirInstruction::AssignBit { .. } | MirInstruction::ResetBit { .. }
            | MirInstruction::SetBit { .. } | MirInstruction::CounterLoadInt { .. }
            | MirInstruction::CounterLoadBcd { .. } | MirInstruction::CounterReset { .. }
            | MirInstruction::CounterSet { .. } | MirInstruction::CounterForward { .. }
            | MirInstruction::CounterBackward { .. } | MirInstruction::Transfer { .. } => true,
        _ => false,
    }
}

/// The address an instruction carries (meaningful under [`has_addr_spec`]).
pub open spec fn addr_spec(i: MirInstruction) -> MirAddress {
    match i {
        MirInstruction::And { addr } => addr,
        MirInstruction::AndNot { addr } => addr,
        MirInstruction::Or { addr } => addr,
        MirInstruction::OrNot { addr } => addr,
        MirInstruction::Xor { addr } => addr,
        MirInstruction::XorNot { addr } => addr,
        MirInstruction::AssignBit { addr } => addr,
        MirInstruction::ResetBit { addr } => addr,
        MirInstruction::SetBit { addr } => addr,
        MirInstruction::CounterLoadInt { addr } => addr,
        MirInstruction::CounterLoadBcd { addr } => addr,
        MirInstruction::CounterReset { addr } => addr,
        MirInstruction::CounterSet { addr } => addr,
        MirInstruction::CounterForward { addr } => addr,
        MirInstruction::CounterBackward { addr } => addr,
        MirInstruction::Transfer { addr } => addr,
        _ => MirAddress { atype: MirAddressType::Memory1, ptr: 0, bit: 0 },
    }
}

/// Rewriting a bracket-opening instruction into the combined instruction that
/// replaces a collapsed single-test bracket.
pub open spec fn unbracket_spec(i: MirInstruction, addr: MirAddress) -> MirInstruction {
    match i {
        MirInstruction::AndStart => MirInstruction::And { addr },
        MirInstruction::AndNotStart => MirInstruction::AndNot { addr },
        MirInstruction::OrStart => MirInstruction::Or { addr },
        MirInstruction::OrNotStart => MirInstruction::OrNot { addr },
        MirInstruction::XorStart => MirInstruction::Xor { addr },
        MirInstruction::XorNotStart => MirInstruction::XorNot { addr },
        _ => i,
    }
}

impl MirInstruction {
    pub fn is_dummy(&self) -> (r: bool)
        ensures
            r == (*self == MirInstruction::Dummy),
    {
        matches!(self, MirInstruction::Dummy)
    }

    pub fn is_end(&self) -> (r: bool)
        ensures
            r == (*self == MirInstruction::End),
    {
        matches!(self, MirInstruction::End)
    }

    pub fn has_bracket(&self) -> (r: bool)
        ensures
            r == has_bracket_spec(*self),
    {
        matches!(
            self,
            MirInstruction::AndStart | MirInstruction::AndNotStart | MirInstruction::OrStart
                | MirInstruction::OrNotStart | MirInstruction::XorStart
                | MirInstruction::XorNotStart
        )
    }

    pub fn unbracket(&self, addr: MirAddress) -> (r: MirInstruction)
        requires
            has_bracket_spec(*self),
        ensures
            r == unbracket_spec(*self, addr),
    {
        match self {
            MirInstruction::AndStart => MirInstruction::And { addr },
            MirInstruction::AndNotStart => MirInstruction::AndNot { addr },
            MirInstruction::OrStart => MirInstruction::Or { addr },
            MirInstruction::OrNotStart => MirInstruction::OrNot { addr },
            MirInstruction::XorStart => MirInstruction::Xor { addr },
            _ => MirInstruction::XorNot { addr },
        }
    }

    pub fn addr(&self) -> (r: MirAddress)
        requires
            has_addr_spec(*self),
        ensures
            r == addr_spec(*self),
    {
        match self {
            MirInstruction::And { addr } => *addr,
            MirInstruction::AndNot { addr } => *addr,
            MirInstruction::Or { addr } => *addr,
            MirInstruction::OrNot { addr } => *addr,
            MirInstruction::Xor { addr } => *addr,
            MirInstruction::XorNot { addr } => *addr,
            MirInstruction::AssignBit { addr } => *addr,
            MirInstruction::ResetBit { addr } => *addr,
            MirInstruction::SetBit { addr } => *addr,
            MirInstruction::CounterLoadInt { addr } => *addr,
            MirInstruction::CounterLoadBcd { addr } => *addr,
            MirInstruction::CounterReset { addr } => *addr,
            MirInstruction::CounterSet { addr } => *addr,
            MirInstruction::CounterForward { addr } => *addr,
            MirInstruction::CounterBackward { addr } => *addr,
            _ => {
                match self {
                    MirInstruction::Transfer { addr } => *addr,
                    _ => MirAddress { atype: MirAddressType::Memory1, ptr: 0, bit: 0 },
                }
            },
        }
    }
}

/// The whole mid-level program state.
#[derive(Debug)]
pub struct Mir {
    pub source: Rc<Source>,
    pub allocator: MirAllocator,
    pub variables: Vec<MirVariable>,
    pub actions: Vec<MirAction>,
}

/// The values currently bound, by slot index.
pub open spec fn var_values(m: Mir) -> Seq<MirValue> {
    m.variables@.map_values(|v: MirVariable| v.value)
}

/// The program state invariant: the allocator counters are in range, every
/// binding's name is a non-empty range into the source, and every stored
/// value only references slots below its own.
pub open spec fn mir_wf(m: Mir) -> bool {
    &&& allocator_wf(m.allocator)
    &&& forall|j: int|
        0 <= j < m.variables@.len() ==> name_wf(
            (#[trigger] m.variables@[j]).name,
            m.source.code@.len(),
        )
    &&& forall|j: int|
        0 <= j < m.variables@.len() ==> stored_ok(
            var_values(m),
            var_values(m)[j],
            j as nat,
        )
}

/// The name text of the binding in slot `j`.
pub open spec fn var_name_at(m: Mir, j: int) -> Seq<u8> {
    m.source.code@.subrange(
        m.variables@[j].name.start as int,
        m.variables@[j].name.end as int,
    )
}


/// A change that touches only the allocator preserves the program state
/// invariant.
pub proof fn lemma_mir_wf_allocator(m1: Mir, m2: Mir)
    requires
        mir_wf(m1),
        m2.variables == m1.variables,
        m2.source == m1.source,
        allocator_wf(m2.allocator),
    ensures
        mir_wf(m2),
{
    assert(m2.variables@ == m1.variables@);
    assert(var_values(m2) =~= var_values(m1));
}


impl Mir {
    pub fn new(source: Rc<Source>) -> (r: Mir)
        ensures
            r.source == source,
            r.allocator.allocated_bits == 0,
            r.allocator.allocated_bytes == 0,
            r.allocator.allocated_counters == 0,
            r.variables@ =~= Seq::<MirVariable>::empty(),
            r.actions@ =~= Seq::<MirAction>::empty(),
            mir_wf(r),
    {
        Mir {
            source,
            allocator: MirAllocator::default(),
            variables: Vec::new(),
            actions: Vec::new(),
        }
    }

    /// Finds the most recent binding whose name text equals `name`: the
    /// highest matching slot wins, so later declarations shadow earlier ones.
    pub fn find_var(&self, name: &[u8]) -> (r: Option<usize>)
        requires
            mir_wf(*self),
        ensures
            match r {
                Some(i) => {
                    &&& i < self.variables@.len()
                    &&& var_name_at(*self, i as int) == name@
                    &&& forall|j: int|
                        i < j < self.variables@.len() ==> var_name_at(*self, j) != name@
                },
                None => forall|j: int|
                    0 <= j < self.variables@.len() ==> var_name_at(*self, j) != name@,
            },
    {
        let mut i = self.variables.len();
        while i > 0
            invariant
                mir_wf(*self),
                i <= self.variables@.len(),
                forall|j: int| i <= j < self.variables@.len() ==> var_name_at(*self, j) != name@,
            decreases i,
        {
            i = i - 1;
            let var = &self.variables[i];
            let text = &self.source.code.as_slice()[var.name.start..var.name.end];
            proof {
                assert(text@ == var_name_at(*self, i as int));
            }
            if bytes_eq(text, name) {
                return Some(i);
            }
        }
        None
    }
}

} // verus!
