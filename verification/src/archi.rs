//! The instruction set: opcodes, operand types and the fixed capacities of
//! the machine's memory regions.

use vstd::prelude::*;

verus! {

/// Index into the instruction buffer; also the value stored on the call stack.
pub type ProgramAddress = u16;

/// The type of the accumulator and of every data-stack slot.
pub type Value = i32;

/// A 16-bit signed immediate, sign-extended into a `Value` when loaded.
pub type Immediate = i16;

/// Capacity of the data stack, in slots.
pub const STACK_SIZE: usize = 16000;

/// Capacity of the call (return-address) stack, in slots.
pub const CALLSTACK_SIZE: usize = 100;

/// One decoded machine instruction.
///
/// Most variants carry no payload.  `LoadImmediate` carries a 16-bit signed
/// immediate; the four control-transfer variants carry a program address.
#[derive(Debug, PartialEq, Eq, Structural, Clone, Copy)]
pub enum Instruction {
    Halt,
    Noop,
    LoadImmediate(Immediate),
    Push,
    Pop,
    Dup,
    Swap,
    LoadTop,
    Over,
    Inc,
    Dec,
    Add,
    Sub,
    Mul,
    Div,
    Eq,
    Neq,
    Lt,
    Lte,
    Gt,
    Gte,
    Inv,
    Jmp(ProgramAddress),
    JumpIfZero(ProgramAddress),
    JumpIfNotZero(ProgramAddress),
    Call(ProgramAddress),
    Ret,
}

impl Instruction {
    /// Whether the instruction carries a program-address operand, so that a
    /// label fixup may patch it.
    pub open spec fn takes_address(self) -> bool {
        match self {
            Instruction::Jmp(_)
            | Instruction::JumpIfZero(_)
            | Instruction::JumpIfNotZero(_)
            | Instruction::Call(_) => true,
            _ => false,
        }
    }

    /// The same instruction with its address operand replaced by `addr`.
    pub open spec fn with_address(self, addr: ProgramAddress) -> Instruction
        recommends
            self.takes_address(),
    {
        match self {
            Instruction::Jmp(_) => Instruction::Jmp(addr),
            Instruction::JumpIfZero(_) => Instruction::JumpIfZero(addr),
            Instruction::JumpIfNotZero(_) => Instruction::JumpIfNotZero(addr),
            Instruction::Call(_) => Instruction::Call(addr),
            _ => self,
        }
    }
}

} // verus!
