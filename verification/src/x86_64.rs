//! The x86-64 target: its registers, condition codes and instruction
//! groups, and which registers the optimizer may allocate.

use vstd::prelude::*;

use crate::code::NUM_REGISTERS;

verus! {

/// A physical x86-64 general-purpose register.
#[derive(Debug, Copy, Clone, PartialEq, Eq, Hash, Structural)]
pub enum Register {
    RA,
    RC,
    RD,
    RB,
    RSP,
    RBP,
    RSI,
    RDI,
    R8,
    R9,
    R10,
    R11,
    R12,
    R13,
    R14,
    R15,
}

/// The 4-bit number of a register in the instruction encoding.
pub open spec fn reg_num(r: Register) -> int {
    match r {
        Register::RA => 0,
        Register::RC => 1,
        Register::RD => 2,
        Register::RB => 3,
        Register::RSP => 4,
        Register::RBP => 5,
        Register::RSI => 6,
        Register::RDI => 7,
        Register::R8 => 8,
        Register::R9 => 9,
        Register::R10 => 10,
        Register::R11 => 11,
        Register::R12 => 12,
        Register::R13 => 13,
        Register::R14 => 14,
        Register::R15 => 15,
    }
}

impl Register {
    /// The 4-bit encoding number, as an executable value.
    pub fn number(self) -> (n: u8)
        ensures
            n as int == reg_num(self),
            n < 16,
    {
        match self {
            Register::RA => 0,
            Register::RC => 1,
            Register::RD => 2,
            Register::RB => 3,
            Register::RSP => 4,
            Register::RBP => 5,
            Register::RSI => 6,
            Register::RDI => 7,
            Register::R8 => 8,
            Register::R9 => 9,
            Register::R10 => 10,
            Register::R11 => 11,
            Register::R12 => 12,
            Register::R13 => 13,
            Register::R14 => 14,
            Register::R15 => 15,
        }
    }
}

/// The registers the optimizer may allocate: all but the stack pointer
/// `RSP`, the shift counter `RC`, and `R12`, whose encoding needs extra
/// care as a memory base.
pub const ALLOCATABLE_REGISTERS: [Register; NUM_REGISTERS] = [
    Register::RA,
    Register::RD,
    Register::RB,
    Register::RBP,
    Register::RSI,
    Register::RDI,
    Register::R8,
    Register::R9,
    Register::R10,
    Register::R11,
    Register::R13,
    Register::R14,
    Register::R15,
];

/// An x86-64 condition code.
#[derive(Debug, Copy, Clone, PartialEq, Eq, Hash, Structural)]
pub enum Condition {
    O,
    NO,
    B,
    AE,
    E,
    NE,
    BE,
    A,
    S,
    NS,
    P,
    NP,
    L,
    GE,
    LE,
    G,
}

/// The 4-bit number of a condition code in the instruction encoding.
pub open spec fn cc_num(cc: Condition) -> int {
    match cc {
        Condition::O => 0,
        Condition::NO => 1,
        Condition::B => 2,
        Condition::AE => 3,
        Condition::E => 4,
        Condition::NE => 5,
        Condition::BE => 6,
        Condition::A => 7,
        Condition::S => 8,
        Condition::NS => 9,
        Condition::P => 10,
        Condition::NP => 11,
        Condition::L => 12,
        Condition::GE => 13,
        Condition::LE => 14,
        Condition::G => 15,
    }
}

impl Condition {
    /// The 4-bit encoding number, as an executable value.
    pub fn number(self) -> (n: u8)
        ensures
            n as int == cc_num(self),
            n < 16,
    {
        match self {
            Condition::O => 0,
            Condition::NO => 1,
            Condition::B => 2,
            Condition::AE => 3,
            Condition::E => 4,
            Condition::NE => 5,
            Condition::BE => 6,
            Condition::A => 7,
            Condition::S => 8,
            Condition::NS => 9,
            Condition::P => 10,
            Condition::NP => 11,
            Condition::L => 12,
            Condition::GE => 13,
            Condition::LE => 14,
            Condition::G => 15,
        }
    }
}

/// An x86-64 group-1 arithmetic instruction.
#[derive(Debug, Copy, Clone, PartialEq, Eq, Hash, Structural)]
pub enum BinaryOp {
    Add,
    Or,
    Adc,
    Sbb,
    And,
    Sub,
    Xor,
    Cmp,
}

/// The 3-bit group number of an arithmetic instruction.
pub open spec fn op_num(op: BinaryOp) -> int {
    match op {
        BinaryOp::Add => 0,
        BinaryOp::Or => 1,
        BinaryOp::Adc => 2,
        BinaryOp::Sbb => 3,
        BinaryOp::And => 4,
        BinaryOp::Sub => 5,
        BinaryOp::Xor => 6,
        BinaryOp::Cmp => 7,
    }
}

impl BinaryOp {
    /// The 3-bit group number, as an executable value.
    pub fn number(self) -> (n: u8)
        ensures
            n as int == op_num(self),
            n < 8,
    {
        match self {
            BinaryOp::Add => 0,
            BinaryOp::Or => 1,
            BinaryOp::Adc => 2,
            BinaryOp::Sbb => 3,
            BinaryOp::And => 4,
            BinaryOp::Sub => 5,
            BinaryOp::Xor => 6,
            BinaryOp::Cmp => 7,
        }
    }
}

/// An x86-64 shift or rotate instruction.
#[derive(Debug, Copy, Clone, PartialEq, Eq, Hash, Structural)]
pub enum ShiftOp {
    Rol,
    Ror,
    Rcl,
    Rcr,
    Shl,
    Shr,
    Sar,
}

/// The 3-bit group number of a shift instruction.
pub open spec fn shift_num(op: ShiftOp) -> int {
    match op {
        ShiftOp::Rol => 0,
        ShiftOp::Ror => 1,
        ShiftOp::Rcl => 2,
        ShiftOp::Rcr => 3,
        ShiftOp::Shl => 4,
        ShiftOp::Shr => 5,
        ShiftOp::Sar => 7,
    }
}

impl ShiftOp {
    /// The 3-bit group number, as an executable value.
    pub fn number(self) -> (n: u8)
        ensures
            n as int == shift_num(self),
            n < 8,
    {
        match self {
            ShiftOp::Rol => 0,
            ShiftOp::Ror => 1,
            ShiftOp::Rcl => 2,
            ShiftOp::Rcr => 3,
            ShiftOp::Shl => 4,
            ShiftOp::Shr => 5,
            ShiftOp::Sar => 7,
        }
    }
}

} // verus!
