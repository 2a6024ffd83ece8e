//! The execution engine: a fetch-decode-execute loop over a stack machine
//! with an accumulator, a data stack and a separate call (return-address)
//! stack.
//!
//! The behaviour of every instruction is given by the mathematical
//! small-step function [`spec_step`] over the register/stack model
//! [`State`]; `Machine::execute_instruction` is proved to implement it
//! exactly, and `Machine::run` is proved to reach exactly the states that
//! iterating [`spec_step`] reaches.
//!
//! Design decisions (the instruction set leaves these open):
//! - "top of stack" is the slot at `sp - 1` uniformly: `Dup` duplicates it,
//!   `LoadTop` reads it, `Swap` exchanges the two topmost slots, `Over`
//!   reads the slot below the top;
//! - `Inc`, `Dec`, `Add`, `Sub` and `Mul` wrap around on overflow, and
//!   `Div` of `i32::MIN` by `-1` yields `i32::MIN`, so that only a zero
//!   divisor is a runtime fault;
//! - a stack operation whose operands are missing fails with the matching
//!   underflow error before any slot is read or written.

use vstd::prelude::*;

use crate::archi::{Instruction, ProgramAddress, Value, CALLSTACK_SIZE, STACK_SIZE};

verus! {

/// What can go wrong while executing one instruction.
#[derive(Debug, PartialEq, Eq, Structural, Clone, Copy)]
pub enum MachineErrorKind {
    CallStackOverflow,
    CallStackUnderflow,
    StackOverflow,
    StackUnderflow,
    DivisionByZero,
}

/// A runtime fault, tagged with the program counter at which it occurred.
#[derive(Debug, PartialEq, Eq, Structural, Clone, Copy)]
pub struct MachineError {
    pub kind: MachineErrorKind,
    pub pc: ProgramAddress,
}

/// Mathematical model of the machine: the register file plus the contents
/// of the two fixed-capacity memory regions.
#[verifier::ext_equal]
pub ghost struct State {
    pub pc: ProgramAddress,
    pub sp: usize,
    pub fp: usize,
    pub acc: Value,
    pub stack: Seq<Value>,
    pub call_stack: Seq<ProgramAddress>,
}

impl State {
    /// The machine's structural invariant: both regions have their declared
    /// capacity and both pointers stay within it.
    pub open spec fn wf(self) -> bool {
        &&& self.stack.len() == STACK_SIZE
        &&& self.call_stack.len() == CALLSTACK_SIZE
        &&& self.sp <= STACK_SIZE
        &&& self.fp <= CALLSTACK_SIZE
    }
}

/// `s` with the program counter advanced past the current instruction.
pub open spec fn adv(s: State) -> State {
    State { pc: (s.pc + 1) as u16, ..s }
}

/// `1` for true, `0` for false: the normalized result of a comparison.
pub open spec fn flag(b: bool) -> Value {
    if b {
        1
    } else {
        0
    }
}

/// Truncating division that wraps on the single overflowing case
/// (`i32::MIN / -1`), mirroring `i32::wrapping_div`.
pub open spec fn wrap_div(a: i32, b: i32) -> i32
    recommends
        b != 0,
{
    match a.checked_div(b) {
        Some(q) => q,
        None => i32::MIN,
    }
}

/// The effect of one instruction on the machine state, or the runtime
/// fault it raises.  A fault leaves the state unchanged.
pub open spec fn spec_step(s: State, inst: Instruction) -> Result<State, MachineErrorKind> {
    let i = s.sp as int;
    let f = s.fp as int;
    match inst {
        Instruction::Halt => Ok(adv(s)),
        Instruction::Noop => Ok(adv(s)),
        Instruction::LoadImmediate(n) => Ok(adv(State { acc: n as i32, ..s })),
        Instruction::Push => if s.sp == STACK_SIZE {
            Err(MachineErrorKind::StackOverflow)
        } else {
            Ok(adv(State { stack: s.stack.update(i, s.acc), sp: (s.sp + 1) as usize, ..s }))
        },
        Instruction::Pop => if s.sp == 0 {
            Err(MachineErrorKind::StackUnderflow)
        } else {
            Ok(adv(State { sp: (s.sp - 1) as usize, acc: s.stack[i - 1], ..s }))
        },
        Instruction::Dup => if s.sp == 0 {
            Err(MachineErrorKind::StackUnderflow)
        } else if s.sp == STACK_SIZE {
            Err(MachineErrorKind::StackOverflow)
        } else {
            Ok(
                adv(
                    State {
                        stack: s.stack.update(i, s.stack[i - 1]),
                        sp: (s.sp + 1) as usize,
                        ..s
                    },
                ),
            )
        },
        Instruction::Swap => if s.sp < 2 {
            Err(MachineErrorKind::StackUnderflow)
        } else {
            Ok(
                adv(
                    State {
                        stack: s.stack.update(i - 1, s.stack[i - 2]).update(i - 2, s.stack[i - 1]),
                        ..s
                    },
                ),
            )
        },
        Instruction::LoadTop => if s.sp == 0 {
            Err(MachineErrorKind::StackUnderflow)
        } else {
            Ok(adv(State { acc: s.stack[i - 1], ..s }))
        },
        Instruction::Over => if s.sp < 2 {
            Err(MachineErrorKind::StackUnderflow)
        } else {
            Ok(adv(State { acc: s.stack[i - 2], ..s }))
        },
        Instruction::Inc => Ok(
            adv(State { acc: vstd::wrapping::i32_specs::wrapping_add(s.acc, 1), ..s }),
        ),
        Instruction::Dec => Ok(
            adv(State { acc: vstd::wrapping::i32_specs::wrapping_sub(s.acc, 1), ..s }),
        ),
        Instruction::Add => if s.sp == 0 {
            Err(MachineErrorKind::StackUnderflow)
        } else {
            Ok(
                adv(
                    State {
                        sp: (s.sp - 1) as usize,
                        acc: vstd::wrapping::i32_specs::wrapping_add(s.acc, s.stack[i - 1]),
                        ..s
                    },
                ),
            )
        },
        Instruction::Sub => if s.sp == 0 {
            Err(MachineErrorKind::StackUnderflow)
        } else {
            Ok(
                adv(
                    State {
                        sp: (s.sp - 1) as usize,
                        acc: vstd::wrapping::i32_specs::wrapping_sub(s.acc, s.stack[i - 1]),
                        ..s
                    },
                ),
            )
        },
        Instruction::Mul => if s.sp == 0 {
            Err(MachineErrorKind::StackUnderflow)
        } else {
            Ok(
                adv(
                    State {
                        sp: (s.sp - 1) as usize,
                        acc: vstd::wrapping::i32_specs::wrapping_mul(s.acc, s.stack[i - 1]),
                        ..s
                    },
                ),
            )
        },
        Instruction::Div => if s.sp == 0 {
            Err(MachineErrorKind::StackUnderflow)
        } else if s.stack[i - 1] == 0 {
            Err(MachineErrorKind::DivisionByZero)
        } else {
            Ok(
                adv(
                    State { sp: (s.sp - 1) as usize, acc: wrap_div(s.acc, s.stack[i - 1]), ..s },
                ),
            )
        },
        Instruction::Eq => if s.sp == 0 {
            Err(MachineErrorKind::StackUnderflow)
        } else {
            Ok(adv(State { sp: (s.sp - 1) as usize, acc: flag(s.acc == s.stack[i - 1]), ..s }))
        },
        Instruction::Neq => if s.sp == 0 {
            Err(MachineErrorKind::StackUnderflow)
        } else {
            Ok(adv(State { sp: (s.sp - 1) as usize, acc: flag(s.acc != s.stack[i - 1]), ..s }))
        },
        Instruction::Lt => if s.sp == 0 {
            Err(MachineErrorKind::StackUnderflow)
        } else {
            Ok(adv(State { sp: (s.sp - 1) as usize, acc: flag(s.acc < s.stack[i - 1]), ..s }))
        },
        Instruction::Lte => if s.sp == 0 {
            Err(MachineErrorKind::StackUnderflow)
        } else {
            Ok(adv(State { sp: (s.sp - 1) as usize, acc: flag(s.acc <= s.stack[i - 1]), ..s }))
        },
        Instruction::Gt => if s.sp == 0 {
            Err(MachineErrorKind::StackUnderflow)
        } else {
            Ok(adv(State { sp: (s.sp - 1) as usize, acc: flag(s.acc > s.stack[i - 1]), ..s }))
        },
        Instruction::Gte => if s.sp == 0 {
            Err(MachineErrorKind::StackUnderflow)
        } else {
            Ok(adv(State { sp: (s.sp - 1) as usize, acc: flag(s.acc >= s.stack[i - 1]), ..s }))
        },
        Instruction::Inv => Ok(adv(State { acc: flag(s.acc != 1), ..s })),
        Instruction::Jmp(a) => Ok(State { pc: a, ..s }),
        Instruction::JumpIfZero(a) => if s.acc == 0 {
            Ok(State { pc: a, ..s })
        } else {
            Ok(adv(s))
        },
        Instruction::JumpIfNotZero(a) => if s.acc != 0 {
            Ok(State { pc: a, ..s })
        } else {
            Ok(adv(s))
        },
        Instruction::Call(a) => if s.fp == CALLSTACK_SIZE {
            Err(MachineErrorKind::CallStackOverflow)
        } else {
            Ok(
                State {
                    call_stack: s.call_stack.update(f, s.pc),
                    fp: (s.fp + 1) as usize,
                    pc: a,
                    ..s
                },
            )
        },
        Instruction::Ret => if s.fp == 0 {
            Err(MachineErrorKind::CallStackUnderflow)
        } else {
            Ok(State { fp: (s.fp - 1) as usize, pc: (s.call_stack[f - 1] + 1) as u16, ..s })
        },
    }
}

/// The program counter produced by the step fits in a `ProgramAddress`.
/// Excluded are only the two 16-bit boundary cases: advancing past address
/// `u16::MAX`, and returning to a call site at `u16::MAX`.
pub open spec fn step_fits(s: State, inst: Instruction) -> bool {
    &&& s.pc < u16::MAX
    &&& (inst is Ret && s.fp > 0 ==> s.call_stack[s.fp as int - 1] < u16::MAX)
}

/// The run loop keeps going at `s`: the program counter is inside the code
/// and does not point at a `Halt`.
pub open spec fn running(code: Seq<Instruction>, s: State) -> bool {
    s.pc < code.len() && !(code[s.pc as int] is Halt)
}

/// `n` fault-free fetch-execute steps through `code` lead from `s0` to `s1`.
pub open spec fn runs_to(code: Seq<Instruction>, s0: State, s1: State, n: nat) -> bool
    decreases n,
{
    if n == 0 {
        s1 == s0
    } else {
        running(code, s0) && match spec_step(s0, code[s0.pc as int]) {
            Ok(m) => runs_to(code, m, s1, (n - 1) as nat),
            Err(_) => false,
        }
    }
}

/// A run of `n` steps extends by one more successful step.
pub proof fn lemma_runs_to_step(code: Seq<Instruction>, s0: State, s1: State, n: nat, s2: State)
    requires
        runs_to(code, s0, s1, n),
        running(code, s1),
        spec_step(s1, code[s1.pc as int]) matches Ok(m) && m == s2,
    ensures
        runs_to(code, s0, s2, n + 1),
    decreases n,
{
    if n == 0 {
        assert(runs_to(code, s2, s2, 0));
    } else {
        match spec_step(s0, code[s0.pc as int]) {
            Ok(m) => lemma_runs_to_step(code, m, s1, (n - 1) as nat, s2),
            Err(_) => assert(false),
        }
    }
}

/// A `Call`/`Ret` pair resumes right after the call site.  Executing
/// `Call(a)` from `s` jumps to `a` and saves the call site `s.pc`; a later
/// `Ret` from any state `t` that still has that frame on top sets the
/// program counter to `s.pc + 1` — one past the call, never the call
/// itself, so a single call/return pair cannot loop.
pub proof fn lemma_call_ret(s: State, a: ProgramAddress, t: State)
    requires
        s.wf(),
        s.fp < CALLSTACK_SIZE,
        s.pc < u16::MAX,
        t.fp == s.fp + 1,
        t.call_stack.len() == CALLSTACK_SIZE,
        t.call_stack[s.fp as int] == s.pc,
    ensures
        spec_step(s, Instruction::Call(a)) matches Ok(c) && c.pc == a && c.fp == s.fp + 1
            && c.call_stack[s.fp as int] == s.pc,
        spec_step(t, Instruction::Ret) matches Ok(r) && r.pc == s.pc + 1 && r.fp == s.fp && r.pc
            != s.pc,
{
}

/// `Call` nested deeper than the call stack's capacity faults with
/// `CallStackOverflow`; no state (and so no memory) changes.
pub proof fn lemma_call_overflow(s: State, a: ProgramAddress)
    requires
        s.fp == CALLSTACK_SIZE,
    ensures
        spec_step(s, Instruction::Call(a)) == Err::<State, MachineErrorKind>(
            MachineErrorKind::CallStackOverflow,
        ),
{
}

/// Popping from an empty data stack faults with `StackUnderflow`, and
/// popping a return address from an empty call stack faults with
/// `CallStackUnderflow`; neither reads or writes any slot.
pub proof fn lemma_empty_underflow(s: State)
    ensures
        s.sp == 0 ==> spec_step(s, Instruction::Pop) == Err::<State, MachineErrorKind>(
            MachineErrorKind::StackUnderflow,
        ),
        s.fp == 0 ==> spec_step(s, Instruction::Ret) == Err::<State, MachineErrorKind>(
            MachineErrorKind::CallStackUnderflow,
        ),
{
}

/// The register file and memory regions of one machine instance.
pub struct Machine {
    pub pc: ProgramAddress,
    pub sp: usize,
    pub fp: usize,
    pub acc: Value,
    pub stack: Vec<Value>,
    pub call_stack: Vec<ProgramAddress>,
}

impl View for Machine {
    type V = State;

    open spec fn view(&self) -> State {
        State {
            pc: self.pc,
            sp: self.sp,
            fp: self.fp,
            acc: self.acc,
            stack: self.stack@,
            call_stack: self.call_stack@,
        }
    }
}

/// The all-zero state every machine starts from.
pub open spec fn init_state() -> State {
    State {
        pc: 0,
        sp: 0,
        fp: 0,
        acc: 0,
        stack: Seq::new(STACK_SIZE as nat, |i: int| 0i32),
        call_stack: Seq::new(CALLSTACK_SIZE as nat, |i: int| 0u16),
    }
}

impl Machine {
    /// A fresh machine: registers zeroed, both stacks zero-filled.
    pub fn new() -> (m: Machine)
        ensures
            m@ =~= init_state(),
            m@.wf(),
    {
        let m = Machine {
            pc: 0,
            sp: 0,
            fp: 0,
            acc: 0,
            stack: vec![0i32; STACK_SIZE],
            call_stack: vec![0u16; CALLSTACK_SIZE],
        };
        proof {
            assert(m@.stack =~= init_state().stack);
            assert(m@.call_stack =~= init_state().call_stack);
        }
        m
    }

    /// Push `value` onto the data stack; `StackOverflow` if and only if the
    /// stack is full, in which case nothing changes.
    pub fn push(&mut self, value: Value) -> (r: Result<(), MachineError>)
        requires
            old(self)@.wf(),
        ensures
            final(self)@.wf(),
            match r {
                Ok(()) => old(self)@.sp < STACK_SIZE && (final(self)@ =~= State {
                    stack: old(self)@.stack.update(old(self)@.sp as int, value),
                    sp: (old(self)@.sp + 1) as usize,
                    ..old(self)@
                }),
                Err(e) => old(self)@.sp == STACK_SIZE && final(self)@ == old(self)@ && e == (MachineError {
                    kind: MachineErrorKind::StackOverflow,
                    pc: old(self).pc,
                }),
            },
    {
        if self.sp >= STACK_SIZE {
            return Err(MachineError { kind: MachineErrorKind::StackOverflow, pc: self.pc });
        }
        self.stack[self.sp] = value;
        self.sp = self.sp + 1;
        Ok(())
    }

    /// Pop the top of the data stack into the result; `StackUnderflow` if
    /// and only if the stack is empty, in which case nothing changes.
    pub fn pop(&mut self) -> (r: Result<Value, MachineError>)
        requires
            old(self)@.wf(),
        ensures
            final(self)@.wf(),
            match r {
                Ok(v) => old(self)@.sp > 0 && v == old(self)@.stack[old(self)@.sp - 1] && (final(self)@
                    =~= State { sp: (old(self)@.sp - 1) as usize, ..old(self)@ }),
                Err(e) => old(self)@.sp == 0 && final(self)@ == old(self)@ && e == (MachineError {
                    kind: MachineErrorKind::StackUnderflow,
                    pc: old(self).pc,
                }),
            },
    {
        if self.sp == 0 {
            return Err(MachineError { kind: MachineErrorKind::StackUnderflow, pc: self.pc });
        }
        self.sp = self.sp - 1;
        Ok(self.stack[self.sp])
    }

    /// Push a return address onto the call stack; `CallStackOverflow` if and
    /// only if the call stack is full, in which case nothing changes.
    pub fn push_frame(&mut self, addr: ProgramAddress) -> (r: Result<(), MachineError>)
        requires
            old(self)@.wf(),
        ensures
            final(self)@.wf(),
            match r {
                Ok(()) => old(self)@.fp < CALLSTACK_SIZE && (final(self)@ =~= State {
                    call_stack: old(self)@.call_stack.update(old(self)@.fp as int, addr),
                    fp: (old(self)@.fp + 1) as usize,
                    ..old(self)@
                }),
                Err(e) => old(self)@.fp == CALLSTACK_SIZE && final(self)@ == old(self)@ && e == (
                MachineError { kind: MachineErrorKind::CallStackOverflow, pc: old(self).pc }),
            },
    {
        if self.fp >= CALLSTACK_SIZE {
            return Err(MachineError { kind: MachineErrorKind::CallStackOverflow, pc: self.pc });
        }
        self.call_stack[self.fp] = addr;
        self.fp = self.fp + 1;
        Ok(())
    }

    /// Pop a return address off the call stack; `CallStackUnderflow` if and
    /// only if the call stack is empty, in which case nothing changes.
    pub fn pop_frame(&mut self) -> (r: Result<ProgramAddress, MachineError>)
        requires
            old(self)@.wf(),
        ensures
            final(self)@.wf(),
            match r {
                Ok(a) => old(self)@.fp > 0 && a == old(self)@.call_stack[old(self)@.fp - 1] && (
                final(self)@ =~= State { fp: (old(self)@.fp - 1) as usize, ..old(self)@ }),
                Err(e) => old(self)@.fp == 0 && final(self)@ == old(self)@ && e == (MachineError {
                    kind: MachineErrorKind::CallStackUnderflow,
                    pc: old(self).pc,
                }),
            },
    {
        if self.fp == 0 {
            return Err(MachineError { kind: MachineErrorKind::CallStackUnderflow, pc: self.pc });
        }
        self.fp = self.fp - 1;
        Ok(self.call_stack[self.fp])
    }

    /// Apply one instruction: exactly [`spec_step`].  A fault is reported
    /// with the current program counter and leaves the machine unchanged.
    pub fn execute_instruction(&mut self, instruction: Instruction) -> (r: Result<
        (),
        MachineError,
    >)
        requires
            old(self)@.wf(),
            step_fits(old(self)@, instruction),
        ensures
            final(self)@.wf(),
            match r {
                Ok(()) => spec_step(old(self)@, instruction) matches Ok(t) && final(self)@ =~= t,
                Err(e) => spec_step(old(self)@, instruction) matches Err(k) && e == (MachineError {
                    kind: k,
                    pc: old(self).pc,
                }) && final(self)@ == old(self)@,
            },
    {
        match instruction {
            Instruction::Halt | Instruction::Noop => {},
            Instruction::LoadImmediate(n) => self.acc = n as i32,
            Instruction::Push => {
                let a = self.acc;
                self.push(a)?
            },
            Instruction::Pop => self.acc = self.pop()?,
            Instruction::Dup => {
                if self.sp == 0 {
                    return Err(
                        MachineError { kind: MachineErrorKind::StackUnderflow, pc: self.pc },
                    );
                }
                let v = self.stack[self.sp - 1];
                self.push(v)?
            },
            Instruction::Swap => {
                if self.sp < 2 {
                    return Err(
                        MachineError { kind: MachineErrorKind::StackUnderflow, pc: self.pc },
                    );
                }
                let tmp = self.stack[self.sp - 1];
                self.stack[self.sp - 1] = self.stack[self.sp - 2];
                self.stack[self.sp - 2] = tmp;
            },
            Instruction::LoadTop => {
                if self.sp == 0 {
                    return Err(
                        MachineError { kind: MachineErrorKind::StackUnderflow, pc: self.pc },
                    );
                }
                self.acc = self.stack[self.sp - 1];
            },
            Instruction::Over => {
                if self.sp < 2 {
                    return Err(
                        MachineError { kind: MachineErrorKind::StackUnderflow, pc: self.pc },
                    );
                }
                self.acc = self.stack[self.sp - 2];
            },
            Instruction::Inc => self.acc = self.acc.wrapping_add(1),
            Instruction::Dec => self.acc = self.acc.wrapping_sub(1),
            Instruction::Add => {
                let v = self.pop()?;
                self.acc = self.acc.wrapping_add(v);
            },
            Instruction::Sub => {
                let v = self.pop()?;
                self.acc = self.acc.wrapping_sub(v);
            },
            Instruction::Mul => {
                let v = self.pop()?;
                self.acc = self.acc.wrapping_mul(v);
            },
            Instruction::Div => {
                if self.sp == 0 {
                    return Err(
                        MachineError { kind: MachineErrorKind::StackUnderflow, pc: self.pc },
                    );
                }
                let d = self.stack[self.sp - 1];
                if d == 0 {
                    return Err(
                        MachineError { kind: MachineErrorKind::DivisionByZero, pc: self.pc },
                    );
                }
                self.sp = self.sp - 1;
                self.acc = match self.acc.checked_div(d) {
                    Some(q) => q,
                    None => i32::MIN,
                };
            },
            Instruction::Eq => {
                let v = self.pop()?;
                self.acc = if self.acc == v {
                    1
                } else {
                    0
                };
            },
            Instruction::Neq => {
                let v = self.pop()?;
                self.acc = if self.acc != v {
                    1
                } else {
                    0
                };
            },
            Instruction::Lt => {
                let v = self.pop()?;
                self.acc = if self.acc < v {
                    1
                } else {
                    0
                };
            },
            Instruction::Lte => {
                let v = self.pop()?;
                self.acc = if self.acc <= v {
                    1
                } else {
                    0
                };
            },
            Instruction::Gt => {
                let v = self.pop()?;
                self.acc = if self.acc > v {
                    1
                } else {
                    0
                };
            },
            Instruction::Gte => {
                let v = self.pop()?;
                self.acc = if self.acc >= v {
                    1
                } else {
                    0
                };
            },
            Instruction::Inv => {
                self.acc = if self.acc == 1 {
                    0
                } else {
                    1
                };
            },
            Instruction::Jmp(addr) => {
                self.pc = addr;
                return Ok(());
            },
            Instruction::JumpIfZero(addr) => {
                if self.acc == 0 {
                    self.pc = addr;
                    return Ok(());
                }
            },
            Instruction::JumpIfNotZero(addr) => {
                if self.acc != 0 {
                    self.pc = addr;
                    return Ok(());
                }
            },
            Instruction::Call(addr) => {
                let here = self.pc;
                self.push_frame(here)?;
                self.pc = addr;
                return Ok(());
            },
            Instruction::Ret => {
                self.pc = self.pop_frame()?;
            },
        }
        self.pc = self.pc + 1;
        Ok(())
    }

    /// Run `code` from address `0` until the program counter leaves the
    /// code, the next instruction is `Halt`, or an instruction faults; the
    /// final machine state is exactly the one reached by iterating
    /// [`spec_step`].  A fault reports the program counter at which it
    /// occurred and leaves the machine in the state just before it.
    ///
    /// As a safety extension the loop spends one unit of a
    /// `u64::MAX`-step budget per instruction; a run that needs more steps
    /// than that stops where it stands, as the last `ensures` case states.
    #[verifier::loop_isolation(false)]
    pub fn run(&mut self, code: &[Instruction]) -> (r: Result<(), MachineError>)
        requires
            old(self)@.wf(),
            code@.len() <= u16::MAX,
            forall|i: int|
                0 <= i < old(self)@.fp ==> (#[trigger] old(self)@.call_stack[i]) < u16::MAX,
        ensures
            final(self)@.wf(),
            ({
                let s0 = (State { pc: 0, ..old(self)@ });
                match r {
                    Ok(()) => exists|n: nat|
                        #[trigger] runs_to(code@, s0, final(self)@, n) && (!running(
                            code@,
                            final(self)@,
                        ) || n == u64::MAX),
                    Err(e) => (exists|n: nat| #[trigger] runs_to(code@, s0, final(self)@, n))
                        && running(code@, final(self)@) && (spec_step(
                        final(self)@,
                        code@[final(self)@.pc as int],
                    ) matches Err(k) && e == (MachineError { kind: k, pc: final(self)@.pc })),
                }
            }),
    {
        let ghost s0 = (State { pc: 0, ..old(self)@ });
        self.pc = 0;
        let mut fuel: u64 = u64::MAX;
        proof {
            assert(runs_to(code@, s0, self@, 0));
        }
        while fuel > 0 && (self.pc as usize) < code.len() && code[self.pc as usize]
            != Instruction::Halt
            invariant
                self@.wf(),
                code@.len() <= u16::MAX,
                forall|i: int| 0 <= i < self@.fp ==> (#[trigger] self@.call_stack[i]) < u16::MAX,
                exists|n: nat| #[trigger] runs_to(code@, s0, self@, n) && n + fuel == u64::MAX,
            decreases fuel,
        {
            let inst = code[self.pc as usize];
            let ghost pre = self@;
            let ghost n0 = choose|n: nat| runs_to(code@, s0, pre, n) && n + fuel == u64::MAX;
            match self.execute_instruction(inst) {
                Ok(()) => {
                    proof {
                        lemma_runs_to_step(code@, s0, pre, n0, self@);
                        assert(runs_to(code@, s0, self@, n0 + 1) && n0 + 1 + (fuel - 1)
                            == u64::MAX);
                    }
                    fuel = fuel - 1;
                },
                Err(e) => {
                    proof {
                        assert(runs_to(code@, s0, self@, n0));
                    }
                    return Err(e);
                },
            }
        }
        proof {
            let n = choose|n: nat| runs_to(code@, s0, self@, n) && n + fuel == u64::MAX;
            assert(runs_to(code@, s0, self@, n) && (!running(code@, self@) || n == u64::MAX));
        }
        Ok(())
    }
}

} // verus!
