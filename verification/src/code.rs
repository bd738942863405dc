//! The abstract instruction set.
//!
//! This instruction set is used to define virtual machines, and it is also
//! used to remember what code has been generated.  Control flow is
//! restricted to a finite state machine; all other instructions are
//! branch-free.  Boolean results are materialised as `0` (false) or all
//! ones (true).

use vstd::prelude::*;

verus! {

/// The number of registers available for allocation.
pub const NUM_REGISTERS: usize = 13;

/// The operand width of an operation: 32-bit operations zero the upper
/// 32 bits of their destination.
#[derive(Debug, Copy, Clone, PartialEq, Eq, Hash, Structural)]
pub enum Precision {
    P32,
    P64,
}

/// An allocatable register: an index below [`NUM_REGISTERS`].
#[derive(Debug, Copy, Clone, PartialEq, Eq, Hash, Structural)]
pub struct Register {
    index: u8,
}

impl Register {
    /// The index of this register in the allocatable register file.
    pub closed spec fn index(self) -> int {
        self.index as int
    }

    #[verifier::type_invariant]
    pub closed spec fn wf(self) -> bool {
        self.index < NUM_REGISTERS
    }

    /// Constructs the register with the given index, if it is allocatable.
    pub fn new(index: u8) -> (r: Option<Register>)
        ensures
            match r {
                Some(reg) => reg.index() == index && (index as usize) < NUM_REGISTERS,
                None => (index as usize) >= NUM_REGISTERS,
            },
    {
        if (index as usize) < NUM_REGISTERS {
            Some(Register { index })
        } else {
            None
        }
    }

    /// The index of this register, as an executable value.
    pub fn as_index(self) -> (i: u8)
        ensures
            i as int == self.index(),
            (i as usize) < NUM_REGISTERS,
    {
        proof {
            use_type_invariant(self);
        }
        self.index
    }
}

/// A spill location: an offset in a caller-managed stack region.
#[derive(Debug, Copy, Clone, PartialEq, Eq, Hash, Structural)]
pub struct Slot(pub usize);

/// The runtime location of a logical value: a [`Register`] or a [`Slot`].
#[derive(Debug, Copy, Clone, PartialEq, Eq, Hash, Structural)]
pub enum Variable {
    Register(Register),
    Slot(Slot),
}

/// Guard conditions used to define control flow: a comparison of a register
/// against a 32-bit immediate, or `Always`.
#[derive(Debug, Copy, Clone, PartialEq, Eq, Hash, Structural)]
pub enum TestOp {
    Bits(Register, i32, i32),
    Lt(Register, i32),
    Ge(Register, i32),
    Ult(Register, i32),
    Uge(Register, i32),
    Eq(Register, i32),
    Ne(Register, i32),
    Always,
}

/// Unary arithmetic operations.
#[derive(Debug, Copy, Clone, PartialEq, Eq, Hash, Structural)]
pub enum UnaryOp {
    Abs,
    Negate,
    Not,
}

/// Binary arithmetic operations.
#[derive(Debug, Copy, Clone, PartialEq, Eq, Hash, Structural)]
pub enum BinaryOp {
    Add,
    Sub,
    Mul,
    Lsl,
    Lsr,
    Asr,
    And,
    Or,
    Xor,
    Lt,
    Ult,
    Eq,
    Max,
    Min,
}

/// Combined division and remainder operations.
#[derive(Debug, Copy, Clone, PartialEq, Eq, Hash, Structural)]
pub enum DivisionOp {
    SignedDivMod,
    UnsignedDivMod,
}

/// The size of a memory access, combining the byte count with the
/// sign-extension behaviour on load.
#[derive(Debug, Copy, Clone, PartialEq, Eq, Hash, Structural)]
pub enum Width {
    U8,
    S8,
    U16,
    S16,
    U32,
    S32,
    U64,
    S64,
}

/// An imperative branch-free instruction.
///
/// The destination register (where applicable) is on the left.  Sources are
/// [`Variable`]s: a value read from a register or from a spill slot.
/// `M` is the type of memory aliasing classes, and `G` is the type of
/// global variable names.
#[derive(Debug, Copy, Clone)]
pub enum Action<M, G> {
    Constant(Precision, Register, i64),
    Move(Variable, Variable),
    Unary(UnaryOp, Precision, Register, Variable),
    Binary(BinaryOp, Precision, Register, Variable, Variable),
    Division(DivisionOp, Precision, Register, Register, Variable, Variable),
    LoadGlobal(Register, G),
    StoreGlobal(Variable, G),
    Load(Register, Variable, Width, M),
    Store(Variable, Variable, Width, M),
    Push(Variable),
    Pop(Register),
    Debug(Variable),
}

/// The [`Variable`] placement contract at a program point: the values that
/// are live, and the number of spill [`Slot`]s in use.
#[derive(Debug, Clone, PartialEq, Eq)]
pub struct Convention {
    /// The locations of the live values.
    pub live_values: Vec<Variable>,
    /// The number of spill slots in use.
    pub slots_used: usize,
}

/// The metadata of one exit from a compiled trace: its observed execution
/// frequency, and the [`Convention`] obeyed on leaving.
#[derive(Debug, Clone, PartialEq, Eq)]
pub struct Leaf {
    /// The observed execution frequency of this exit.
    pub weight: usize,
    /// The convention obeyed on leaving through this exit.
    pub after: Convention,
}

/// A [`Convention`] with no live values.
pub fn empty_convention(slots_used: usize) -> (c: Convention)
    ensures
        c.live_values@ =~= Seq::<Variable>::empty(),
        c.slots_used == slots_used,
{
    Convention { live_values: Vec::new(), slots_used }
}


/// A switch at the end of an extended basic block: the discriminant
/// selects one of `cases`, or `default_`.
#[derive(Debug)]
pub enum Switch<L> {
    Index { discriminant: Variable, cases: Vec<EBB<L>>, default_: Box<EBB<L>> },
}

/// How an extended basic block ends: at a leaf, or at a switch.
#[derive(Debug)]
pub enum Ending<L> {
    Leaf(L),
    Switch(Switch<L>),
}

/// An extended basic block: a straight-line sequence of [`Action`]s
/// terminated by a [`Switch`] or a leaf.
#[derive(Debug)]
pub struct EBB<L> {
    /// The straight-line instructions.
    pub actions: Vec<Action<(), ()>>,
    /// What happens afterwards.
    pub ending: Ending<L>,
}

} // verus!
