//! A minimal bytecode virtual machine and its assembler.
//!
//! The assembler (`assembler`) turns a line-oriented text format into a sequence of
//! `Instruction` values, resolving symbolic jump targets (labels) that may be
//! referenced before they are defined.  The execution engine (`machine`) runs
//! such a sequence on a stack machine with an accumulator register, a data
//! stack and a separate call stack, with every register and stack access
//! bounds-checked.

pub mod archi;
pub mod assembler;
pub mod machine;
