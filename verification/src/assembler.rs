//! The assembler: translates line-oriented source text into a caller-owned
//! instruction buffer, resolving symbolic jump targets (labels) that may be
//! referenced before they are defined.
//!
//! The source format is described on [`code_from_str`].  The whole
//! translation is specified mathematically over the byte view of the
//! source: [`lines_of`] splits it into lines, [`toks`] splits a line into
//! tokens, and [`prog`] is the instruction sequence a fault-free program
//! denotes, with every symbolic reference already resolved to the address
//! bound by the label's definition.

use vstd::prelude::*;
use vstd::string::*;

use crate::archi::{Immediate, Instruction, ProgramAddress};

verus! {

/// What can go wrong while assembling.  The offending token, where there
/// is one, is carried as its raw bytes.
#[derive(Debug, PartialEq, Eq, Clone)]
pub enum AssemblyErrorKind {
    UnknownInstruction(Vec<u8>),
    WrongArity { expected: usize, got: usize },
    InvalidNumber(Vec<u8>),
    CodeTooBig,
    MissingLabelDefinition(Vec<u8>),
    UnsupportedFixupTarget,
}

/// An assembly-time error, tagged with the 1-based source line at which it
/// was detected.
#[derive(Debug, PartialEq, Eq, Clone)]
pub struct AssemblyError {
    pub kind: AssemblyErrorKind,
    pub line: usize,
}

// The byte values the grammar treats specially.
pub const NL: u8 = 10;  // '\n'
pub const TAB: u8 = 9;  // '\t'
pub const CR: u8 = 13;  // '\r'
pub const SP: u8 = 32;  // ' '
pub const PLUS: u8 = 43;  // '+'
pub const MINUS: u8 = 45;  // '-'
pub const SEMI: u8 = 59;  // ';'
pub const COLON: u8 = 58;  // ':'
pub const AT: u8 = 64;  // '@'
pub const D0: u8 = 48;  // '0'
pub const D9: u8 = 57;  // '9'

/// Token-separating whitespace inside a line.
pub open spec fn is_ws(b: u8) -> bool {
    b == SP || b == TAB || b == CR
}

/// The first whitespace position at or after `i`, or the line's length.
pub open spec fn tok_end(l: Seq<u8>, i: int) -> int
    decreases l.len() - i,
{
    if i < 0 || i >= l.len() {
        l.len() as int
    } else if is_ws(l[i]) {
        i
    } else {
        tok_end(l, i + 1)
    }
}

pub proof fn lemma_tok_end(l: Seq<u8>, i: int)
    requires
        0 <= i <= l.len(),
    ensures
        i <= tok_end(l, i) <= l.len(),
        i < l.len() && !is_ws(l[i]) ==> tok_end(l, i) > i,
        forall|j: int| i <= j < tok_end(l, i) ==> !is_ws(#[trigger] l[j]),
        tok_end(l, i) < l.len() ==> is_ws(l[tok_end(l, i)]),
    decreases l.len() - i,
{
    if i < l.len() && !is_ws(l[i]) {
        lemma_tok_end(l, i + 1);
    }
}

/// The whitespace-separated tokens of the line suffix starting at `i`.
pub open spec fn toks_from(l: Seq<u8>, i: int) -> Seq<Seq<u8>>
    decreases l.len() - i,
        when 0 <= i <= l.len()
        via toks_from_dec
{
    if i >= l.len() {
        Seq::empty()
    } else if is_ws(l[i]) {
        toks_from(l, i + 1)
    } else {
        seq![l.subrange(i, tok_end(l, i))] + toks_from(l, tok_end(l, i))
    }
}

#[via_fn]
proof fn toks_from_dec(l: Seq<u8>, i: int) {
    if 0 <= i < l.len() && !is_ws(l[i]) {
        lemma_tok_end(l, i);
    }
}

/// The whitespace-separated tokens of a line.
pub open spec fn toks(l: Seq<u8>) -> Seq<Seq<u8>> {
    toks_from(l, 0)
}

/// The first newline position at or after `i`, or the source's length.
pub open spec fn line_end(s: Seq<u8>, i: int) -> int
    decreases s.len() - i,
{
    if i < 0 || i >= s.len() {
        s.len() as int
    } else if s[i] == NL {
        i
    } else {
        line_end(s, i + 1)
    }
}

pub proof fn lemma_line_end(s: Seq<u8>, i: int)
    requires
        0 <= i <= s.len(),
    ensures
        i <= line_end(s, i) <= s.len(),
        forall|j: int| i <= j < line_end(s, i) ==> #[trigger] s[j] != NL,
        line_end(s, i) < s.len() ==> s[line_end(s, i)] == NL,
    decreases s.len() - i,
{
    if i < s.len() && s[i] != NL {
        lemma_line_end(s, i + 1);
    }
}

/// The lines of the source suffix starting at `i`, split on newlines.
/// Every source has at least one (possibly empty) line.
pub open spec fn lines_from(s: Seq<u8>, i: int) -> Seq<Seq<u8>>
    decreases s.len() - i,
        when 0 <= i <= s.len()
        via lines_from_dec
{
    let e = line_end(s, i);
    if e >= s.len() {
        seq![s.subrange(i, e)]
    } else {
        seq![s.subrange(i, e)] + lines_from(s, e + 1)
    }
}

#[via_fn]
proof fn lines_from_dec(s: Seq<u8>, i: int) {
    if 0 <= i <= s.len() {
        lemma_line_end(s, i);
    }
}

/// The lines of the source, split on newlines.
pub open spec fn lines_of(s: Seq<u8>) -> Seq<Seq<u8>> {
    lines_from(s, 0)
}

/// A decimal digit.
pub open spec fn is_digit(b: u8) -> bool {
    D0 <= b <= D9
}

pub open spec fn all_digits(t: Seq<u8>) -> bool {
    forall|i: int| 0 <= i < t.len() ==> is_digit(#[trigger] t[i])
}

/// The value of a digit string, most significant digit first.
pub open spec fn digits_val(t: Seq<u8>) -> int
    decreases t.len(),
{
    if t.len() == 0 {
        0
    } else {
        digits_val(t.drop_last()) * 10 + (t.last() - D0)
    }
}

/// The value of an unsigned decimal literal: at least one digit, digits
/// only.
pub open spec fn uval(t: Seq<u8>) -> Option<int> {
    if t.len() >= 1 && all_digits(t) {
        Some(digits_val(t))
    } else {
        None
    }
}

/// The value of a program-address operand: an unsigned decimal literal
/// that fits in 16 bits.
pub open spec fn addr_val(t: Seq<u8>) -> Option<ProgramAddress> {
    match uval(t) {
        Some(v) => if v <= 0xFFFF {
            Some(v as u16)
        } else {
            None
        },
        None => None,
    }
}

/// The value of a `load` operand: an optionally signed decimal literal
/// that fits in 16 bits two's complement.
pub open spec fn imm_val(t: Seq<u8>) -> Option<Immediate> {
    if t.len() >= 1 && (t[0] == PLUS || t[0] == MINUS) {
        match uval(t.skip(1)) {
            Some(v) => if t[0] == MINUS {
                if v <= 0x8000 {
                    Some((-v) as i16)
                } else {
                    None
                }
            } else {
                if v <= 0x7FFF {
                    Some(v as i16)
                } else {
                    None
                }
            },
            None => None,
        }
    } else {
        match uval(t) {
            Some(v) => if v <= 0x7FFF {
                Some(v as i16)
            } else {
                None
            },
            None => None,
        }
    }
}

/// The instruction named by a mnemonic that takes no operand.
pub open spec fn spec_noarg(t: Seq<u8>) -> Option<Instruction> {
    if t == "halt".spec_bytes() {
        Some(Instruction::Halt)
    } else if t == "noop".spec_bytes() {
        Some(Instruction::Noop)
    } else if t == "push".spec_bytes() {
        Some(Instruction::Push)
    } else if t == "pop".spec_bytes() {
        Some(Instruction::Pop)
    } else if t == "dup".spec_bytes() {
        Some(Instruction::Dup)
    } else if t == "swap".spec_bytes() {
        Some(Instruction::Swap)
    } else if t == "ldt".spec_bytes() {
        Some(Instruction::LoadTop)
    } else if t == "over".spec_bytes() {
        Some(Instruction::Over)
    } else if t == "inc".spec_bytes() {
        Some(Instruction::Inc)
    } else if t == "dec".spec_bytes() {
        Some(Instruction::Dec)
    } else if t == "add".spec_bytes() {
        Some(Instruction::Add)
    } else if t == "sub".spec_bytes() {
        Some(Instruction::Sub)
    } else if t == "mul".spec_bytes() {
        Some(Instruction::Mul)
    } else if t == "div".spec_bytes() {
        Some(Instruction::Div)
    } else if t == "eq".spec_bytes() {
        Some(Instruction::Eq)
    } else if t == "neq".spec_bytes() {
        Some(Instruction::Neq)
    } else if t == "lt".spec_bytes() {
        Some(Instruction::Lt)
    } else if t == "lte".spec_bytes() {
        Some(Instruction::Lte)
    } else if t == "gt".spec_bytes() {
        Some(Instruction::Gt)
    } else if t == "gte".spec_bytes() {
        Some(Instruction::Gte)
    } else if t == "inv".spec_bytes() {
        Some(Instruction::Inv)
    } else if t == "ret".spec_bytes() {
        Some(Instruction::Ret)
    } else {
        None
    }
}

/// Whether `t` is the `load` mnemonic.
pub open spec fn is_load_tok(t: Seq<u8>) -> bool {
    t == "load".spec_bytes()
}

/// The address-taking instruction named by a jump-family mnemonic, with a
/// placeholder address of `0`.
pub open spec fn spec_jump(t: Seq<u8>) -> Option<Instruction> {
    if t == "jmp".spec_bytes() {
        Some(Instruction::Jmp(0))
    } else if t == "jz".spec_bytes() {
        Some(Instruction::JumpIfZero(0))
    } else if t == "jnz".spec_bytes() {
        Some(Instruction::JumpIfNotZero(0))
    } else if t == "call".spec_bytes() {
        Some(Instruction::Call(0))
    } else {
        None
    }
}

pub open spec fn known_mnemonic(t: Seq<u8>) -> bool {
    spec_noarg(t) is Some || is_load_tok(t) || spec_jump(t) is Some
}

/// A blank line, or a comment line (first token starts with `;`).
pub open spec fn is_skip(l: Seq<u8>) -> bool {
    toks(l).len() == 0 || toks(l)[0][0] == SEMI
}

/// A label definition: a lone token of at least two bytes ending in `:`.
pub open spec fn is_label(l: Seq<u8>) -> bool {
    &&& !is_skip(l)
    &&& toks(l).len() == 1
    &&& toks(l)[0].len() >= 2
    &&& toks(l)[0].last() == COLON
}

/// The name a label line binds: its token without the trailing `:`.
pub open spec fn label_name_of(l: Seq<u8>) -> Seq<u8>
    recommends
        is_label(l),
{
    toks(l)[0].drop_last()
}

/// A line that consumes one instruction slot.
pub open spec fn is_emit(l: Seq<u8>) -> bool {
    !is_skip(l) && !is_label(l)
}

/// An instruction line that is in error in itself (unknown mnemonic, wrong
/// operand count, or a malformed numeric operand).
pub open spec fn line_faulty(l: Seq<u8>) -> bool
    recommends
        is_emit(l),
{
    let ts = toks(l);
    let t0 = ts[0];
    if spec_noarg(t0) is Some {
        ts.len() != 1
    } else if is_load_tok(t0) {
        ts.len() != 2 || imm_val(ts[1]) is None
    } else if spec_jump(t0) is Some {
        ts.len() != 2 || (ts[1][0] != AT && addr_val(ts[1]) is None)
    } else {
        true
    }
}

/// The exact error a faulty instruction line is reported with.
pub open spec fn fault_kind_ok(l: Seq<u8>, k: AssemblyErrorKind) -> bool
    recommends
        is_emit(l),
        line_faulty(l),
{
    let ts = toks(l);
    let t0 = ts[0];
    if spec_noarg(t0) is Some {
        k matches AssemblyErrorKind::WrongArity { expected, got } && expected == 0 && got == ts.len()
            - 1
    } else if is_load_tok(t0) || spec_jump(t0) is Some {
        if ts.len() != 2 {
            k matches AssemblyErrorKind::WrongArity { expected, got } && expected == 1 && got
                == ts.len() - 1
        } else {
            k matches AssemblyErrorKind::InvalidNumber(n) && n@ == ts[1]
        }
    } else {
        k matches AssemblyErrorKind::UnknownInstruction(n) && n@ == t0
    }
}

/// A fault-free instruction line whose operand is a symbolic reference.
pub open spec fn has_sym(l: Seq<u8>) -> bool
    recommends
        is_emit(l),
{
    let ts = toks(l);
    let t0 = ts[0];
    &&& !line_faulty(l)
    &&& spec_noarg(t0) is None
    &&& !is_load_tok(t0)
    &&& spec_jump(t0) is Some
    &&& ts[1][0] == AT
}

/// The label a symbolic reference names: its token without the leading `@`.
pub open spec fn ref_name(l: Seq<u8>) -> Seq<u8>
    recommends
        has_sym(l),
{
    toks(l)[1].skip(1)
}

/// The instruction a fault-free instruction line denotes before label
/// resolution: a symbolic reference still carries the placeholder address
/// `0`.
pub open spec fn line_instr0(l: Seq<u8>) -> Instruction
    recommends
        is_emit(l),
        !line_faulty(l),
{
    let ts = toks(l);
    let t0 = ts[0];
    match spec_noarg(t0) {
        Some(inst) => inst,
        None => if is_load_tok(t0) {
            Instruction::LoadImmediate(imm_val(ts[1]).unwrap())
        } else if ts[1][0] == AT {
            spec_jump(t0).unwrap()
        } else {
            spec_jump(t0).unwrap().with_address(addr_val(ts[1]).unwrap())
        },
    }
}

/// The usable capacity of a destination buffer: its length, bounded by the
/// number of distinct program addresses, `0xFFFF`.
pub open spec fn eff_cap(len: nat) -> int {
    if len < 0xFFFF {
        len as int
    } else {
        0xFFFF
    }
}

/// How many instruction slots the lines before line `j` consume.
pub open spec fn emit_count(ls: Seq<Seq<u8>>, j: int) -> int
    decreases j,
{
    if j <= 0 {
        0
    } else {
        emit_count(ls, j - 1) + if is_emit(ls[j - 1]) {
            1int
        } else {
            0int
        }
    }
}

/// The address the label lines before line `j` bind `nm` to, the last
/// definition winning; `None` if none of them defines `nm`.
pub open spec fn def_state(ls: Seq<Seq<u8>>, nm: Seq<u8>, j: int) -> Option<ProgramAddress>
    decreases j,
{
    if j <= 0 {
        None
    } else if is_label(ls[j - 1]) && label_name_of(ls[j - 1]) == nm {
        Some(emit_count(ls, j - 1) as u16)
    } else {
        def_state(ls, nm, j - 1)
    }
}

/// Whether some line of the program defines the label `nm`.
pub open spec fn label_defined(ls: Seq<Seq<u8>>, nm: Seq<u8>) -> bool {
    def_state(ls, nm, ls.len() as int) is Some
}

/// The address the program binds the label `nm` to.
pub open spec fn label_addr(ls: Seq<Seq<u8>>, nm: Seq<u8>) -> ProgramAddress
    recommends
        label_defined(ls, nm),
{
    def_state(ls, nm, ls.len() as int).unwrap()
}

/// Line `j` is a fault-free instruction line referencing `@nm`.
pub open spec fn emit_sym_to(ls: Seq<Seq<u8>>, j: int, nm: Seq<u8>) -> bool {
    &&& is_emit(ls[j])
    &&& !line_faulty(ls[j])
    &&& has_sym(ls[j])
    &&& ref_name(ls[j]) == nm
}

/// The slots of the symbolic references to `nm` among the lines before
/// line `j`, in source order.
pub open spec fn sym_sites(ls: Seq<Seq<u8>>, nm: Seq<u8>, j: int) -> Seq<ProgramAddress>
    decreases j,
{
    if j <= 0 {
        Seq::empty()
    } else {
        sym_sites(ls, nm, j - 1) + if emit_sym_to(ls, j - 1, nm) {
            seq![emit_count(ls, j - 1) as u16]
        } else {
            Seq::empty()
        }
    }
}

/// Line `i` defines or references the label `nm`.
pub open spec fn occ_at(ls: Seq<Seq<u8>>, i: int, nm: Seq<u8>) -> bool {
    (is_label(ls[i]) && label_name_of(ls[i]) == nm) || emit_sym_to(ls, i, nm)
}

/// The first line at or after `i` that defines or references `nm`, or
/// `ls.len()`.
pub open spec fn first_occ_from(ls: Seq<Seq<u8>>, nm: Seq<u8>, i: int) -> int
    decreases ls.len() - i,
{
    if i < 0 || i >= ls.len() {
        ls.len() as int
    } else if occ_at(ls, i, nm) {
        i
    } else {
        first_occ_from(ls, nm, i + 1)
    }
}

/// The first line at or after `i` that references `nm`, or `ls.len()`.
pub open spec fn first_ref_from(ls: Seq<Seq<u8>>, nm: Seq<u8>, i: int) -> int
    decreases ls.len() - i,
{
    if i < 0 || i >= ls.len() {
        ls.len() as int
    } else if emit_sym_to(ls, i, nm) {
        i
    } else {
        first_ref_from(ls, nm, i + 1)
    }
}

/// The instruction a fault-free instruction line finally denotes: a
/// symbolic reference to a defined label carries that label's address.
pub open spec fn line_instr(ls: Seq<Seq<u8>>, j: int) -> Instruction
    recommends
        is_emit(ls[j]),
        !line_faulty(ls[j]),
{
    if has_sym(ls[j]) && label_defined(ls, ref_name(ls[j])) {
        line_instr0(ls[j]).with_address(label_addr(ls, ref_name(ls[j])))
    } else {
        line_instr0(ls[j])
    }
}

/// The instructions the lines before line `j` denote, labels unresolved.
pub open spec fn prog0(ls: Seq<Seq<u8>>, j: int) -> Seq<Instruction>
    decreases j,
{
    if j <= 0 {
        Seq::empty()
    } else {
        prog0(ls, j - 1) + if is_emit(ls[j - 1]) {
            seq![line_instr0(ls[j - 1])]
        } else {
            Seq::empty()
        }
    }
}

/// The instructions the lines before line `j` denote, labels resolved.
pub open spec fn prog(ls: Seq<Seq<u8>>, j: int) -> Seq<Instruction>
    decreases j,
{
    if j <= 0 {
        Seq::empty()
    } else {
        prog(ls, j - 1) + if is_emit(ls[j - 1]) {
            seq![line_instr(ls, j - 1)]
        } else {
            Seq::empty()
        }
    }
}

/// Line `i` stops the scan: it is an instruction line that is faulty in
/// itself, or one for which no slot is left.
pub open spec fn fault_at(ls: Seq<Seq<u8>>, cap: int, i: int) -> bool {
    is_emit(ls[i]) && (line_faulty(ls[i]) || emit_count(ls, i) >= cap)
}

/// The first line at or after `j` that stops the scan.
pub open spec fn first_fault_from(ls: Seq<Seq<u8>>, cap: int, j: int) -> Option<int>
    decreases ls.len() - j,
{
    if j < 0 || j >= ls.len() {
        None
    } else if fault_at(ls, cap, j) {
        Some(j)
    } else {
        first_fault_from(ls, cap, j + 1)
    }
}

/// The first faulty line of the program, if any.
pub open spec fn first_fault(ls: Seq<Seq<u8>>, cap: int) -> Option<int> {
    first_fault_from(ls, cap, 0)
}

/// Line `i` references a label that no line of the program defines.
pub open spec fn missing_at(ls: Seq<Seq<u8>>, i: int) -> bool {
    is_emit(ls[i]) && !line_faulty(ls[i]) && has_sym(ls[i]) && !label_defined(ls, ref_name(ls[i]))
}

/// The first line at or after `j` whose label reference stays unresolved.
pub open spec fn first_missing_from(ls: Seq<Seq<u8>>, j: int) -> Option<int>
    decreases ls.len() - j,
{
    if j < 0 || j >= ls.len() {
        None
    } else if missing_at(ls, j) {
        Some(j)
    } else {
        first_missing_from(ls, j + 1)
    }
}

/// The first line of the program whose label reference stays unresolved,
/// if any.
pub open spec fn first_missing(ls: Seq<Seq<u8>>) -> Option<int> {
    first_missing_from(ls, 0)
}

pub proof fn lemma_emit_count_mono(ls: Seq<Seq<u8>>, a: int, b: int)
    requires
        0 <= a <= b,
    ensures
        emit_count(ls, a) <= emit_count(ls, b) <= emit_count(ls, a) + (b - a),
        a < b && is_emit(ls[a]) ==> emit_count(ls, a) < emit_count(ls, b),
    decreases b - a,
{
    if a < b {
        lemma_emit_count_mono(ls, a + 1, b);
    }
}

pub proof fn lemma_prog_len(ls: Seq<Seq<u8>>, j: int)
    requires
        j >= 0,
    ensures
        prog0(ls, j).len() == emit_count(ls, j),
        prog(ls, j).len() == emit_count(ls, j),
    decreases j,
{
    if j > 0 {
        lemma_prog_len(ls, j - 1);
    }
}

#[verifier::rlimit(100)]
#[verifier::spinoff_prover]
pub proof fn lemma_prog_index(ls: Seq<Seq<u8>>, i: int, j: int)
    requires
        0 <= i < j,
        is_emit(ls[i]),
    ensures
        emit_count(ls, i) < emit_count(ls, j),
        prog0(ls, j)[emit_count(ls, i)] == line_instr0(ls[i]),
        prog(ls, j)[emit_count(ls, i)] == line_instr(ls, i),
    decreases j,
{
    lemma_prog_len(ls, j - 1);
    lemma_emit_count_mono(ls, i, j);
    lemma_emit_count_mono(ls, 0, i);
    if i == j - 1 {
        assert(prog0(ls, j)[emit_count(ls, i)] == line_instr0(ls[i]));
        assert(prog(ls, j)[emit_count(ls, i)] == line_instr(ls, i));
    } else {
        lemma_prog_index(ls, i, j - 1);
        lemma_emit_count_mono(ls, i + 1, j - 1);
        lemma_emit_count_mono(ls, i, i + 1);
        assert(emit_count(ls, i) < emit_count(ls, j - 1));
        let t0 = if is_emit(ls[j - 1]) {
            seq![line_instr0(ls[j - 1])]
        } else {
            Seq::<Instruction>::empty()
        };
        let t = if is_emit(ls[j - 1]) {
            seq![line_instr(ls, j - 1)]
        } else {
            Seq::<Instruction>::empty()
        };
        assert(prog0(ls, j) == prog0(ls, j - 1) + t0);
        assert(prog(ls, j) == prog(ls, j - 1) + t);
        assert((prog0(ls, j - 1) + t0)[emit_count(ls, i)] == prog0(ls, j - 1)[emit_count(ls, i)]);
        assert((prog(ls, j - 1) + t)[emit_count(ls, i)] == prog(ls, j - 1)[emit_count(ls, i)]);
    }
}

pub proof fn lemma_slot_line(ls: Seq<Seq<u8>>, j: int, k: int)
    requires
        0 <= k < emit_count(ls, j),
    ensures
        exists|i: int|
            0 <= i < j && is_emit(ls[i]) && #[trigger] emit_count(ls, i) == k,
    decreases j,
{
    if j > 0 {
        if is_emit(ls[j - 1]) && emit_count(ls, j - 1) == k {
        } else {
            lemma_slot_line(ls, j - 1, k);
        }
    }
}

pub proof fn lemma_def_state_none(ls: Seq<Seq<u8>>, nm: Seq<u8>, j: int)
    ensures
        (def_state(ls, nm, j) is None) <==> (forall|i: int|
            0 <= i < j ==> !(is_label(#[trigger] ls[i]) && label_name_of(ls[i]) == nm)),
    decreases j,
{
    if j > 0 {
        lemma_def_state_none(ls, nm, j - 1);
    }
}

#[verifier::rlimit(100)]
#[verifier::spinoff_prover]
pub proof fn lemma_sym_sites(ls: Seq<Seq<u8>>, nm: Seq<u8>, j: int)
    requires
        j >= 0,
        emit_count(ls, j) <= 0xFFFF,
    ensures
        (sym_sites(ls, nm, j).len() == 0) <==> (forall|i: int| 0 <= i < j ==> !emit_sym_to(ls, i, nm)),
        forall|y: int|
            0 <= y < sym_sites(ls, nm, j).len() ==> exists|i: int|
                0 <= i < j && #[trigger] emit_sym_to(ls, i, nm) && emit_count(ls, i)
                    == #[trigger] sym_sites(ls, nm, j)[y],
        forall|y1: int, y2: int|
            0 <= y1 < y2 < sym_sites(ls, nm, j).len() ==> #[trigger] sym_sites(ls, nm, j)[y1]
                < #[trigger] sym_sites(ls, nm, j)[y2],
        forall|y: int|
            0 <= y < sym_sites(ls, nm, j).len() ==> #[trigger] sym_sites(ls, nm, j)[y] < emit_count(
                ls,
                j,
            ),
        forall|i: int|
            0 <= i < j && #[trigger] emit_sym_to(ls, i, nm) ==> sym_sites(ls, nm, j).contains(
                emit_count(ls, i) as u16,
            ),
    decreases j,
{
    if j > 0 {
        lemma_emit_count_mono(ls, j - 1, j);
        lemma_sym_sites(ls, nm, j - 1);
        let s_old = sym_sites(ls, nm, j - 1);
        let s_new = sym_sites(ls, nm, j);
        if emit_sym_to(ls, j - 1, nm) {
            let t = seq![emit_count(ls, j - 1) as u16];
            assert(s_new == s_old + t);
            assert(forall|y: int| 0 <= y < s_old.len() ==> #[trigger] s_new[y] == s_old[y]);
            assert(s_new[s_old.len() as int] == emit_count(ls, j - 1) as u16);
            assert(is_emit(ls[j - 1]));
            assert(emit_count(ls, j) == emit_count(ls, j - 1) + 1);
            assert forall|y1: int, y2: int|
                0 <= y1 < y2 < s_new.len() implies #[trigger] s_new[y1] < #[trigger] s_new[y2] by {
                if y2 == s_old.len() {
                    assert(s_new[y1] == s_old[y1]);
                    assert(s_old[y1] < emit_count(ls, j - 1));
                }
            }
            lemma_emit_count_mono(ls, 0, j - 1);
            assert forall|y: int|
                0 <= y < s_new.len() implies exists|i: int|
                0 <= i < j && #[trigger] emit_sym_to(ls, i, nm) && emit_count(ls, i)
                    == #[trigger] s_new[y] by {
                if y < s_old.len() {
                    assert(s_new[y] == s_old[y]);
                    let i0 = choose|i: int|
                        0 <= i < j - 1 && #[trigger] emit_sym_to(ls, i, nm) && emit_count(ls, i)
                            == s_old[y];
                    assert(0 <= i0 < j && emit_sym_to(ls, i0, nm) && emit_count(ls, i0)
                        == s_new[y]);
                } else {
                    assert(s_new[y] == emit_count(ls, j - 1) as u16);
                    assert(emit_sym_to(ls, j - 1, nm) && emit_count(ls, j - 1) == s_new[y]);
                }
            }
            assert forall|y: int| 0 <= y < s_new.len() implies #[trigger] s_new[y] < emit_count(
                ls,
                j,
            ) by {
                if y < s_old.len() {
                    assert(s_new[y] == s_old[y]);
                }
            }
            assert forall|i: int|
                0 <= i < j && #[trigger] emit_sym_to(ls, i, nm) implies s_new.contains(
                emit_count(ls, i) as u16,
            ) by {
                if i < j - 1 {
                    let y = choose|y: int|
                        0 <= y < s_old.len() && #[trigger] s_old[y] == emit_count(ls, i) as u16;
                    assert(s_new[y] == emit_count(ls, i) as u16);
                } else {
                    assert(s_new[s_old.len() as int] == emit_count(ls, i) as u16);
                }
            }
        } else {
            assert(s_new == s_old + Seq::<ProgramAddress>::empty());
            assert(s_new =~= s_old);
            assert(s_new == s_old);
        }
    }
}

pub proof fn lemma_first_fault_skip(ls: Seq<Seq<u8>>, cap: int, a: int, b: int)
    requires
        0 <= a <= b <= ls.len(),
        forall|i: int| a <= i < b ==> !fault_at(ls, cap, i),
    ensures
        first_fault_from(ls, cap, a) == first_fault_from(ls, cap, b),
    decreases b - a,
{
    if a < b {
        lemma_first_fault_skip(ls, cap, a + 1, b);
    }
}

pub proof fn lemma_first_missing_skip(ls: Seq<Seq<u8>>, a: int, b: int)
    requires
        0 <= a <= b <= ls.len(),
        forall|i: int| a <= i < b ==> !missing_at(ls, i),
    ensures
        first_missing_from(ls, a) == first_missing_from(ls, b),
    decreases b - a,
{
    if a < b {
        lemma_first_missing_skip(ls, a + 1, b);
    }
}

pub proof fn lemma_first_ref_skip(ls: Seq<Seq<u8>>, nm: Seq<u8>, a: int, b: int)
    requires
        0 <= a <= b <= ls.len(),
        forall|i: int| a <= i < b ==> !emit_sym_to(ls, i, nm),
    ensures
        first_ref_from(ls, nm, a) == first_ref_from(ls, nm, b),
    decreases b - a,
{
    if a < b {
        lemma_first_ref_skip(ls, nm, a + 1, b);
    }
}

pub proof fn lemma_first_occ_skip(ls: Seq<Seq<u8>>, nm: Seq<u8>, a: int, b: int)
    requires
        0 <= a <= b <= ls.len(),
        forall|i: int| a <= i < b ==> !occ_at(ls, i, nm),
    ensures
        first_occ_from(ls, nm, a) == first_occ_from(ls, nm, b),
    decreases b - a,
{
    if a < b {
        lemma_first_occ_skip(ls, nm, a + 1, b);
    }
}

/// One label's bookkeeping during assembly: the address its last
/// definition so far bound (if any), the 1-based line of its first
/// reference, and the slots whose address operand awaits it.
struct LabelEntry {
    name: Vec<u8>,
    addr: Option<ProgramAddress>,
    first_ref_line: usize,
    sites: Vec<ProgramAddress>,
}

/// The entry is exactly what the lines before line `j` say about its name.
spec fn entry_inv(e: LabelEntry, ls: Seq<Seq<u8>>, j: int) -> bool {
    &&& e.addr == def_state(ls, e.name@, j)
    &&& e.sites@ == sym_sites(ls, e.name@, j)
    &&& first_occ_from(ls, e.name@, 0) < j
    &&& (e.sites@.len() > 0 ==> e.first_ref_line == first_ref_from(ls, e.name@, 0) + 1)
}

spec fn table_has(t: Seq<LabelEntry>, nm: Seq<u8>) -> bool {
    exists|x: int| 0 <= x < t.len() && #[trigger] t[x].name@ == nm
}

/// The table holds one exact entry per label that the lines before line
/// `j` define or reference, in order of first occurrence.
spec fn table_inv(t: Seq<LabelEntry>, ls: Seq<Seq<u8>>, j: int) -> bool {
    &&& forall|x: int| 0 <= x < t.len() ==> entry_inv(#[trigger] t[x], ls, j)
    &&& forall|x: int, y: int|
        0 <= x < y < t.len() ==> first_occ_from(ls, #[trigger] t[x].name@, 0) < first_occ_from(
            ls,
            #[trigger] t[y].name@,
            0,
        )
    &&& forall|nm: Seq<u8>| #[trigger] def_state(ls, nm, j) is Some ==> table_has(t, nm)
    &&& forall|nm: Seq<u8>| #[trigger] sym_sites(ls, nm, j).len() > 0 ==> table_has(t, nm)
}

/// Two table entries never share a name.
proof fn lemma_table_distinct(t: Seq<LabelEntry>, ls: Seq<Seq<u8>>, j: int)
    requires
        table_inv(t, ls, j),
    ensures
        forall|x: int, y: int|
            0 <= x < t.len() && 0 <= y < t.len() && x != y ==> (#[trigger] t[x].name@)
                != (#[trigger] t[y].name@),
{
}

/// Whether `a` and `b` hold the same bytes.
fn bytes_eq(a: &[u8], b: &[u8]) -> (r: bool)
    ensures
        r == (a@ == b@),
{
    if a.len() != b.len() {
        return false;
    }
    let mut i: usize = 0;
    while i < a.len()
        invariant
            a@.len() == b@.len(),
            i <= a@.len(),
            forall|y: int| 0 <= y < i ==> a@[y] == b@[y],
        decreases a@.len() - i,
    {
        if a[i] != b[i] {
            return false;
        }
        i = i + 1;
    }
    proof {
        assert(a@ =~= b@);
    }
    true
}

/// Find the table entry for `name`, if one exists.
fn find_entry(table: &Vec<LabelEntry>, name: &[u8]) -> (r: Option<usize>)
    ensures
        match r {
            Some(x) => x < table@.len() && table@[x as int].name@ == name@,
            None => !table_has(table@, name@),
        },
{
    let mut x: usize = 0;
    while x < table.len()
        invariant
            x <= table@.len(),
            forall|y: int| 0 <= y < x ==> (#[trigger] table@[y].name@) != name@,
        decreases table@.len() - x,
    {
        if bytes_eq(table[x].name.as_slice(), name) {
            return Some(x);
        }
        x = x + 1;
    }
    None
}

/// A line that neither defines a label nor registers a fixup leaves the
/// table's meaning unchanged.
proof fn lemma_table_step_silent(t: Seq<LabelEntry>, ls: Seq<Seq<u8>>, j: int)
    requires
        table_inv(t, ls, j),
        0 <= j < ls.len(),
        !is_label(ls[j]),
        is_emit(ls[j]) && !line_faulty(ls[j]) ==> !has_sym(ls[j]),
    ensures
        table_inv(t, ls, j + 1),
{
    assert(forall|nm: Seq<u8>| !emit_sym_to(ls, j, nm));
    assert(forall|nm: Seq<u8>| #[trigger] def_state(ls, nm, j + 1) == def_state(ls, nm, j));
    assert(forall|nm: Seq<u8>| #[trigger] sym_sites(ls, nm, j + 1) =~= sym_sites(ls, nm, j));
}

/// Record that line `j` binds the label `name` to address `count`.
fn apply_def(
    table: &mut Vec<LabelEntry>,
    name: Vec<u8>,
    count: u16,
    Ghost(ls): Ghost<Seq<Seq<u8>>>,
    Ghost(j): Ghost<int>,
) -> (r: ())
    requires
        table_inv(old(table)@, ls, j),
        0 <= j < ls.len(),
        is_label(ls[j]),
        label_name_of(ls[j]) == name@,
        count == emit_count(ls, j),
    ensures
        table_inv(final(table)@, ls, j + 1),
        final(table)@.len() >= old(table)@.len(),
{
    let ghost t0 = table@;
    proof {
        lemma_table_distinct(t0, ls, j);
        assert(forall|nm: Seq<u8>| #[trigger] sym_sites(ls, nm, j + 1) =~= sym_sites(ls, nm, j));
        assert(forall|nm: Seq<u8>|
            nm != name@ ==> #[trigger] def_state(ls, nm, j + 1) == def_state(ls, nm, j));
        assert(def_state(ls, name@, j + 1) == Some(count));
        assert(forall|nm: Seq<u8>| !emit_sym_to(ls, j, nm));
    }
    match find_entry(table, name.as_slice()) {
        Some(x) => {
            let mut e = table.remove(x);
            e.addr = Some(count);
            table.insert(x, e);
            proof {
                assert(table@ =~= t0.update(x as int, table@[x as int]));
                assert(table@[x as int].name@ == name@);
                assert(forall|y: int|
                    0 <= y < table@.len() && y != x ==> table@[y] == t0[y]);
                assert(forall|y: int|
                    0 <= y < table@.len() ==> (#[trigger] table@[y].name@) == t0[y].name@);
                assert(forall|y: int|
                    0 <= y < table@.len() ==> entry_inv(#[trigger] table@[y], ls, j + 1));
                assert(forall|nm: Seq<u8>|
                    #[trigger] def_state(ls, nm, j + 1) is Some ==> table_has(table@, nm)) by {
                    assert(forall|nm: Seq<u8>|
                        table_has(t0, nm) ==> #[trigger] table_has(table@, nm));
                }
                assert(forall|nm: Seq<u8>|
                    #[trigger] sym_sites(ls, nm, j + 1).len() > 0 ==> table_has(table@, nm)) by {
                    assert(forall|nm: Seq<u8>|
                        table_has(t0, nm) ==> #[trigger] table_has(table@, nm));
                }
            }
        },
        None => {
            // First occurrence of this label: nothing before line `j`
            // mentions it.
            proof {
                lemma_def_state_none(ls, name@, j);
                lemma_sym_sites(ls, name@, j);
                assert(forall|i: int| 0 <= i < j ==> !occ_at(ls, i, name@));
                lemma_first_occ_skip(ls, name@, 0, j);
                assert(occ_at(ls, j, name@));
                assert(first_occ_from(ls, name@, 0) == j);
            }
            let e = LabelEntry { name, addr: Some(count), first_ref_line: 0, sites: Vec::new() };
            table.push(e);
            proof {
                assert(table@ =~= t0.push(table@.last()));
                assert(table@.last().name@ == label_name_of(ls[j]));
                assert(sym_sites(ls, label_name_of(ls[j]), j + 1) =~= Seq::<u16>::empty());
                assert(entry_inv(table@.last(), ls, j + 1));
                assert(forall|y: int|
                    0 <= y < t0.len() ==> table@[y] == t0[y]);
                assert(forall|y: int|
                    0 <= y < table@.len() ==> entry_inv(#[trigger] table@[y], ls, j + 1));
                assert(forall|y: int|
                    0 <= y < t0.len() ==> first_occ_from(ls, #[trigger] t0[y].name@, 0) < j);
                assert(forall|nm: Seq<u8>|
                    table_has(t0, nm) ==> #[trigger] table_has(table@, nm));
                assert(table_has(table@, name@)) by {
                    assert(table@[table@.len() - 1].name@ == name@);
                }
            }
        },
    }
}

/// Record that line `j` (1-based `linum`) references the label `name`
/// from the instruction slot `count`.
fn apply_ref(
    table: &mut Vec<LabelEntry>,
    name: Vec<u8>,
    count: u16,
    linum: usize,
    Ghost(ls): Ghost<Seq<Seq<u8>>>,
    Ghost(j): Ghost<int>,
) -> (r: ())
    requires
        table_inv(old(table)@, ls, j),
        0 <= j < ls.len(),
        emit_sym_to(ls, j, name@),
        count == emit_count(ls, j),
        count < 0xFFFF,
        linum == j + 1,
    ensures
        table_inv(final(table)@, ls, j + 1),
        final(table)@.len() >= old(table)@.len(),
{
    let ghost t0 = table@;
    proof {
        lemma_table_distinct(t0, ls, j);
        assert(!is_label(ls[j]));
        assert(forall|nm: Seq<u8>|
            #[trigger] def_state(ls, nm, j + 1) == def_state(ls, nm, j));
        assert(forall|nm: Seq<u8>|
            nm != name@ ==> !emit_sym_to(ls, j, nm) && #[trigger] sym_sites(ls, nm, j + 1)
                =~= sym_sites(ls, nm, j));
        assert(sym_sites(ls, name@, j + 1) =~= sym_sites(ls, name@, j) + seq![count]);
    }
    match find_entry(table, name.as_slice()) {
        Some(x) => {
            let mut e = table.remove(x);
            let was_empty = e.sites.len() == 0;
            if was_empty {
                e.first_ref_line = linum;
            }
            e.sites.push(count);
            table.insert(x, e);
            proof {
                if was_empty {
                    lemma_sym_sites(ls, name@, j);
                    assert(forall|i: int| 0 <= i < j ==> !emit_sym_to(ls, i, name@));
                    lemma_first_ref_skip(ls, name@, 0, j);
                    assert(first_ref_from(ls, name@, 0) == j);
                }
                assert(table@ =~= t0.update(x as int, table@[x as int]));
                assert(table@[x as int].name@ == name@);
                assert(table@[x as int].sites@ =~= sym_sites(ls, name@, j + 1));
                assert(forall|y: int|
                    0 <= y < table@.len() && y != x ==> table@[y] == t0[y]);
                assert(forall|y: int|
                    0 <= y < table@.len() ==> (#[trigger] table@[y].name@) == t0[y].name@);
                assert(forall|y: int|
                    0 <= y < table@.len() ==> entry_inv(#[trigger] table@[y], ls, j + 1));
                assert(forall|nm: Seq<u8>|
                    table_has(t0, nm) ==> #[trigger] table_has(table@, nm));
            }
        },
        None => {
            proof {
                lemma_def_state_none(ls, name@, j);
                lemma_sym_sites(ls, name@, j);
                assert(forall|i: int| 0 <= i < j ==> !occ_at(ls, i, name@));
                lemma_first_occ_skip(ls, name@, 0, j);
                lemma_first_ref_skip(ls, name@, 0, j);
                assert(first_occ_from(ls, name@, 0) == j);
                assert(first_ref_from(ls, name@, 0) == j);
            }
            let mut sites: Vec<ProgramAddress> = Vec::new();
            sites.push(count);
            let e = LabelEntry { name, addr: None, first_ref_line: linum, sites };
            table.push(e);
            proof {
                assert(table@ =~= t0.push(table@.last()));
                assert(table@.last().sites@ =~= sym_sites(ls, table@.last().name@, j + 1));
                assert(entry_inv(table@.last(), ls, j + 1));
                assert(forall|y: int|
                    0 <= y < t0.len() ==> table@[y] == t0[y]);
                assert(forall|y: int|
                    0 <= y < table@.len() ==> entry_inv(#[trigger] table@[y], ls, j + 1));
                assert(forall|y: int|
                    0 <= y < t0.len() ==> first_occ_from(ls, #[trigger] t0[y].name@, 0) < j);
                assert(forall|nm: Seq<u8>|
                    table_has(t0, nm) ==> #[trigger] table_has(table@, nm));
                assert(table_has(table@, table@.last().name@)) by {
                    assert(table@[table@.len() - 1].name@ == table@.last().name@);
                }
            }
        },
    }
}

pub proof fn lemma_first_ref_le(ls: Seq<Seq<u8>>, nm: Seq<u8>, a: int, i: int)
    requires
        0 <= a <= i < ls.len(),
        emit_sym_to(ls, i, nm),
    ensures
        first_ref_from(ls, nm, a) <= i,
    decreases i - a,
{
    if a < i && !emit_sym_to(ls, a, nm) {
        lemma_first_ref_le(ls, nm, a + 1, i);
    }
}

pub proof fn lemma_first_ref_is_ref(ls: Seq<Seq<u8>>, nm: Seq<u8>, a: int)
    requires
        0 <= a <= ls.len(),
    ensures
        a <= first_ref_from(ls, nm, a) <= ls.len(),
        first_ref_from(ls, nm, a) < ls.len() ==> emit_sym_to(ls, first_ref_from(ls, nm, a), nm),
    decreases ls.len() - a,
{
    if a < ls.len() && !emit_sym_to(ls, a, nm) {
        lemma_first_ref_is_ref(ls, nm, a + 1);
    }
}

pub proof fn lemma_first_occ_le(ls: Seq<Seq<u8>>, nm: Seq<u8>, a: int, i: int)
    requires
        0 <= a <= i < ls.len(),
        occ_at(ls, i, nm),
    ensures
        first_occ_from(ls, nm, a) <= i,
    decreases i - a,
{
    if a < i && !occ_at(ls, a, nm) {
        lemma_first_occ_le(ls, nm, a + 1, i);
    }
}

pub proof fn lemma_first_occ_is_occ(ls: Seq<Seq<u8>>, nm: Seq<u8>, a: int)
    requires
        0 <= a <= ls.len(),
    ensures
        a <= first_occ_from(ls, nm, a) <= ls.len(),
        first_occ_from(ls, nm, a) < ls.len() ==> occ_at(ls, first_occ_from(ls, nm, a), nm),
    decreases ls.len() - a,
{
    if a < ls.len() && !occ_at(ls, a, nm) {
        lemma_first_occ_is_occ(ls, nm, a + 1);
    }
}

/// A fault-free instruction line with a symbolic reference denotes an
/// address-taking instruction.
proof fn lemma_sym_takes_address(l: Seq<u8>)
    requires
        is_emit(l),
        !line_faulty(l),
        has_sym(l),
    ensures
        line_instr0(l).takes_address(),
{
}

/// Overwrite the address operand of the instruction at `slot`, keeping its
/// opcode; an instruction without an address operand is reported as
/// `UnsupportedFixupTarget` at line `line1` and left unchanged.
fn patch_slot(dst: &mut [Instruction], slot: u16, a: u16, line1: usize) -> (r: Result<
    (),
    AssemblyError,
>)
    requires
        (slot as int) < old(dst)@.len(),
    ensures
        final(dst)@.len() == old(dst)@.len(),
        forall|k: int|
            0 <= k < old(dst)@.len() && k != slot ==> final(dst)@[k] == old(dst)@[k],
        match r {
            Ok(()) => old(dst)@[slot as int].takes_address() && final(dst)@[slot as int] == old(
                dst,
            )@[slot as int].with_address(a),
            Err(e) => !old(dst)@[slot as int].takes_address() && final(dst)@[slot as int] == old(
                dst,
            )@[slot as int] && e.kind is UnsupportedFixupTarget && e.line == line1,
        },
{
    let s = slot as usize;
    match dst[s] {
        Instruction::Jmp(_) => {
            dst[s] = Instruction::Jmp(a);
            Ok(())
        },
        Instruction::JumpIfZero(_) => {
            dst[s] = Instruction::JumpIfZero(a);
            Ok(())
        },
        Instruction::JumpIfNotZero(_) => {
            dst[s] = Instruction::JumpIfNotZero(a);
            Ok(())
        },
        Instruction::Call(_) => {
            dst[s] = Instruction::Call(a);
            Ok(())
        },
        _ => Err(AssemblyError { kind: AssemblyErrorKind::UnsupportedFixupTarget, line: line1 }),
    }
}

/// The slot `k` is one of the fixup sites strictly before position
/// (`e`, `s`) in the table's entry/site order.
spec fn site_patched(t: Seq<LabelEntry>, e: int, s: int, k: u16) -> bool {
    exists|x: int, y: int|
        #![trigger t[x].sites@[y]]
        0 <= x < t.len() && 0 <= y < t[x].sites@.len() && (x < e || (x == e && y < s)) && t[
            x
        ].sites@[y] == k
}

/// Walk the finished label table: report the first entry that was
/// referenced but never defined, else patch every registered fixup site
/// with its label's address.
#[verifier::loop_isolation(false)]
#[verifier::rlimit(100)]
fn resolve_fixups(
    dst: &mut [Instruction],
    table: &Vec<LabelEntry>,
    count: u16,
    Ghost(ls): Ghost<Seq<Seq<u8>>>,
) -> (r: Result<(), AssemblyError>)
    requires
        table_inv(table@, ls, ls.len() as int),
        count == emit_count(ls, ls.len() as int),
        count <= old(dst)@.len(),
        forall|k: int|
            0 <= k < count ==> old(dst)@[k] == prog0(ls, ls.len() as int)[k],
    ensures
        final(dst)@.len() == old(dst)@.len(),
        forall|k: int|
            count <= k < old(dst)@.len() ==> final(dst)@[k] == old(dst)@[k],
        match r {
            Ok(()) => first_missing(ls) is None && (forall|k: int|
                0 <= k < count ==> final(dst)@[k] == prog(ls, ls.len() as int)[k]),
            Err(e) => first_missing(ls) matches Some(jm) && e.line == jm + 1 && (
            e.kind matches AssemblyErrorKind::MissingLabelDefinition(nm) && nm@ == ref_name(
                ls[jm],
            )),
        },
{
    let ghost L = ls.len() as int;
    let ghost t = table@;
    proof {
        lemma_table_distinct(t, ls, L);
        lemma_prog_len(ls, L);
    }
    let mut ei: usize = 0;
    while ei < table.len()
        invariant
            ei <= t.len(),
            dst@.len() == old(dst)@.len(),
            forall|k: int| count <= k < old(dst)@.len() ==> dst@[k] == old(dst)@[k],
            forall|x: int| 0 <= x < ei ==> (#[trigger] t[x].addr) is Some,
            forall|k: u16|
                k < count && !site_patched(t, ei as int, 0, k) ==> dst@[k as int] == prog0(ls, L)[
                    k as int
                ],
            forall|x: int, y: int|
                #![trigger t[x].sites@[y]]
                0 <= x < ei && 0 <= y < t[x].sites@.len() ==> dst@[t[x].sites@[y] as int] == prog0(
                    ls,
                    L,
                )[t[x].sites@[y] as int].with_address(t[x].addr.unwrap()),
        decreases t.len() - ei,
    {
        let ghost nm = t[ei as int].name@;
        proof {
            lemma_sym_sites(ls, nm, L);
        }
        let a = match table[ei].addr {
            Some(a) => a,
            None => {
                // The label was referenced but never defined: report it at
                // the line of its first reference.
                proof {
                    lemma_def_state_none(ls, nm, L);
                    lemma_first_occ_is_occ(ls, nm, 0);
                    let fo = first_occ_from(ls, nm, 0);
                    assert(occ_at(ls, fo, nm));
                    assert(emit_sym_to(ls, fo, nm));
                    assert(sym_sites(ls, nm, L).len() > 0);
                    lemma_first_ref_is_ref(ls, nm, 0);
                    let fr = first_ref_from(ls, nm, 0);
                    lemma_first_ref_le(ls, nm, 0, fo);
                    assert(fr < L);
                    assert(missing_at(ls, fr));
                    assert forall|i: int| 0 <= i < fr implies !missing_at(ls, i) by {
                        if missing_at(ls, i) {
                            let nm2 = ref_name(ls[i]);
                            assert(emit_sym_to(ls, i, nm2));
                            lemma_sym_sites(ls, nm2, L);
                            assert(sym_sites(ls, nm2, L).len() > 0);
                            let x2 = choose|x: int|
                                0 <= x < t.len() && #[trigger] t[x].name@ == nm2;
                            lemma_def_state_none(ls, nm2, L);
                            assert(t[x2].addr is None);
                            assert(x2 >= ei);
                            lemma_first_occ_le(ls, nm, 0, fr);
                            lemma_first_occ_is_occ(ls, nm2, 0);
                            lemma_first_occ_le(ls, nm2, 0, i);
                            if x2 == ei {
                                assert(nm2 == nm);
                                lemma_first_ref_le(ls, nm, 0, i);
                                assert(false);
                            } else {
                                // entries are ordered by first occurrence
                                assert(first_occ_from(ls, nm, 0) < first_occ_from(ls, nm2, 0));
                                // the first occurrence of an undefined label
                                // is its first reference
                                assert(occ_at(ls, fo, nm));
                                assert(fr <= fo);
                                assert(first_occ_from(ls, nm2, 0) <= i);
                                assert(fo <= fr) by {
                                    lemma_first_occ_le(ls, nm, 0, fr);
                                }
                                assert(false);
                            }
                        }
                    }
                    lemma_first_missing_skip(ls, 0, fr);
                    assert(first_missing(ls) == Some(fr));
                }
                return Err(
                    AssemblyError {
                        kind: AssemblyErrorKind::MissingLabelDefinition(
                            vstd::slice::slice_to_vec(table[ei].name.as_slice()),
                        ),
                        line: table[ei].first_ref_line,
                    },
                );
            },
        };
        let entry_line = table[ei].first_ref_line;
        let sites_len = table[ei].sites.len();
        let mut s: usize = 0;
        while s < sites_len
            invariant
                s <= sites_len,
                sites_len == t[ei as int].sites@.len(),
                ei < t.len(),
                t[ei as int].addr == Some(a),
                dst@.len() == old(dst)@.len(),
                forall|k: int| count <= k < old(dst)@.len() ==> dst@[k] == old(dst)@[k],
                forall|k: u16|
                    k < count && !site_patched(t, ei as int, s as int, k) ==> dst@[k as int]
                        == prog0(ls, L)[k as int],
                forall|x: int, y: int|
                    #![trigger t[x].sites@[y]]
                    0 <= x < t.len() && 0 <= y < t[x].sites@.len() && (x < ei || (x == ei && y < s))
                        ==> t[x].addr is Some && dst@[t[x].sites@[y] as int] == prog0(
                        ls,
                        L,
                    )[t[x].sites@[y] as int].with_address(t[x].addr.unwrap()),
            decreases sites_len - s,
        {
            let slot = table[ei].sites[s];
            proof {
                // the slot is in range and still unpatched
                assert(t[ei as int].sites@[s as int] == slot);
                assert(slot < count);
                assert(!site_patched(t, ei as int, s as int, slot)) by {
                    if site_patched(t, ei as int, s as int, slot) {
                        let (x, y) = choose|x: int, y: int|
                            #![trigger t[x].sites@[y]]
                            0 <= x < t.len() && 0 <= y < t[x].sites@.len() && (x < ei as int || (x
                                == ei as int && y < s as int)) && t[x].sites@[y] == slot;
                        let nm2 = t[x].name@;
                        lemma_sym_sites(ls, nm2, L);
                        let i1 = choose|i: int|
                            0 <= i < L && #[trigger] emit_sym_to(ls, i, nm2) && emit_count(ls, i)
                                == t[x].sites@[y];
                        let i2 = choose|i: int|
                            0 <= i < L && #[trigger] emit_sym_to(ls, i, nm) && emit_count(ls, i)
                                == t[ei as int].sites@[s as int];
                        if i1 != i2 {
                            if i1 < i2 {
                                lemma_emit_count_mono(ls, i1, i2);
                            } else {
                                lemma_emit_count_mono(ls, i2, i1);
                            }
                            assert(false);
                        }
                        assert(nm2 == nm);
                        if x == ei as int {
                            assert(t[x].sites@[y] < t[x].sites@[s as int]);
                            assert(false);
                        } else {
                            assert(false);
                        }
                    }
                }
                // the slot holds an address-taking instruction
                let i2 = choose|i: int|
                    0 <= i < L && #[trigger] emit_sym_to(ls, i, nm) && emit_count(ls, i) == t[
                        ei as int
                    ].sites@[s as int];
                lemma_prog_index(ls, i2, L);
                lemma_sym_takes_address(ls[i2]);
                assert(dst@[slot as int] == line_instr0(ls[i2]));
            }
            let ghost pre = dst@;
            match patch_slot(dst, slot, a, entry_line) {
                Ok(()) => {},
                Err(e) => {
                    // unreachable: only address-taking instructions are
                    // registered as fixup sites
                    proof {
                        assert(false);
                    }
                    return Err(e);
                },
            }
            proof {
                assert forall|k: u16|
                    k < count && !site_patched(t, ei as int, s + 1, k) implies dst@[k as int]
                    == prog0(ls, L)[k as int] by {
                    assert(!site_patched(t, ei as int, s as int, k));
                    assert(k != slot);
                    assert(dst@[k as int] == pre[k as int]);
                }
                assert forall|x: int, y: int|
                    #![trigger t[x].sites@[y]]
                    0 <= x < t.len() && 0 <= y < t[x].sites@.len() && (x < ei as int || (x
                        == ei as int && y < s + 1)) implies t[x].addr is Some && dst@[t[
                    x
                ].sites@[y] as int] == prog0(ls, L)[t[x].sites@[y] as int].with_address(
                    t[x].addr.unwrap(),
                ) by {
                    if x == ei as int && y == s as int {
                        assert(dst@[slot as int] == prog0(ls, L)[slot as int].with_address(a));
                    } else {
                        assert(entry_inv(t[x], ls, L));
                        lemma_sym_sites(ls, t[x].name@, L);
                        assert(t[x].sites@[y] < count);
                        assert(t[x].sites@[y] != slot);
                        assert(dst@[t[x].sites@[y] as int] == pre[t[x].sites@[y] as int]);
                    }
                }
            }
            s = s + 1;
        }
        proof {
            assert forall|k: u16|
                k < count && !site_patched(t, ei + 1, 0, k) implies !site_patched(
                t,
                ei as int,
                sites_len as int,
                k,
            ) by {
                if site_patched(t, ei as int, sites_len as int, k) {
                    let (x, y) = choose|x: int, y: int|
                        #![trigger t[x].sites@[y]]
                        0 <= x < t.len() && 0 <= y < t[x].sites@.len() && (x < ei as int || (x
                            == ei as int && y < sites_len as int)) && t[x].sites@[y] == k;
                    assert(x < ei + 1);
                    assert(site_patched(t, ei + 1, 0, k));
                }
            }
        }
        ei = ei + 1;
    }
    // every fixup is patched: the buffer now spells the resolved program
    proof {
        assert forall|i: int| 0 <= i < L implies !missing_at(ls, i) by {
            if missing_at(ls, i) {
                let nm2 = ref_name(ls[i]);
                assert(emit_sym_to(ls, i, nm2));
                lemma_sym_sites(ls, nm2, L);
                assert(sym_sites(ls, nm2, L).len() > 0);
                let x2 = choose|x: int| 0 <= x < t.len() && #[trigger] t[x].name@ == nm2;
                lemma_def_state_none(ls, nm2, L);
                assert(t[x2].addr is None);
                assert(false);
            }
        }
        lemma_first_missing_skip(ls, 0, L);
        assert forall|k: int| 0 <= k < count implies dst@[k] == prog(ls, L)[k] by {
            lemma_slot_line(ls, L, k);
            let i = choose|i: int|
                0 <= i < L && is_emit(ls[i]) && #[trigger] emit_count(ls, i) == k;
            lemma_prog_index(ls, i, L);
            if is_emit(ls[i]) && !line_faulty(ls[i]) && has_sym(ls[i]) {
                let nm2 = ref_name(ls[i]);
                assert(emit_sym_to(ls, i, nm2));
                lemma_sym_sites(ls, nm2, L);
                assert(sym_sites(ls, nm2, L).contains(k as u16));
                let y = choose|y: int|
                    0 <= y < sym_sites(ls, nm2, L).len() && sym_sites(ls, nm2, L)[y] == k as u16;
                let x2 = choose|x: int| 0 <= x < t.len() && #[trigger] t[x].name@ == nm2;
                assert(t[x2].sites@[y] == k as u16);
                assert(dst@[k] == prog0(ls, L)[k].with_address(t[x2].addr.unwrap()));
                assert(def_state(ls, nm2, L) is Some);
                assert(label_defined(ls, nm2));
                assert(t[x2].addr.unwrap() == label_addr(ls, nm2));
                assert(line_instr(ls, i) == line_instr0(ls[i]).with_address(label_addr(ls, nm2)));
            } else {
                // not a symbolic slot: no site list contains it
                assert(!site_patched(t, t.len() as int, 0, k as u16)) by {
                    if site_patched(t, t.len() as int, 0, k as u16) {
                        let (x, y) = choose|x: int, y: int|
                            #![trigger t[x].sites@[y]]
                            0 <= x < t.len() && 0 <= y < t[x].sites@.len() && (x < t.len() as int
                                || (x == t.len() as int && y < 0)) && t[x].sites@[y] == k as u16;
                        lemma_sym_sites(ls, t[x].name@, L);
                        let i1 = choose|i1: int|
                            0 <= i1 < L && #[trigger] emit_sym_to(ls, i1, t[x].name@) && emit_count(
                                ls,
                                i1,
                            ) == t[x].sites@[y];
                        if i1 != i {
                            if i1 < i {
                                lemma_emit_count_mono(ls, i1, i);
                            } else {
                                lemma_emit_count_mono(ls, i, i1);
                            }
                        }
                        assert(false);
                    }
                }
                assert(dst@[k] == prog0(ls, L)[k]);
                assert(line_instr(ls, i) == line_instr0(ls[i]));
            }
        }
    }
    Ok(())
}

/// What one parsed line asks the assembler to do.
pub enum LineAction {
    /// Blank or comment: nothing.
    Skip,
    /// Bind `name` to the next instruction address.
    DefLabel { name: Vec<u8> },
    /// Emit a fully decoded instruction.
    EmitPlain { inst: Instruction },
    /// Emit `inst` (whose address operand is the placeholder `0`) and
    /// register a fixup of its slot to the label `name`.
    EmitSym { inst: Instruction, name: Vec<u8> },
}

/// Scan the next whitespace-separated token of `line` at or after `pos`.
fn next_token(line: &[u8], pos: usize) -> (r: Option<(usize, usize)>)
    requires
        pos <= line@.len(),
    ensures
        match r {
            None => toks_from(line@, pos as int) == Seq::<Seq<u8>>::empty(),
            Some((a, b)) => {
                &&& pos <= a < b <= line@.len()
                &&& !is_ws(line@[a as int])
                &&& b == tok_end(line@, a as int)
                &&& toks_from(line@, pos as int) == seq![line@.subrange(a as int, b as int)]
                    + toks_from(line@, b as int)
            },
        },
{
    let n = line.len();
    let mut i = pos;
    while i < n && (line[i] == SP || line[i] == TAB || line[i] == CR)
        invariant
            pos <= i <= n,
            n == line@.len(),
            toks_from(line@, pos as int) == toks_from(line@, i as int),
        decreases n - i,
    {
        i = i + 1;
    }
    if i == n {
        return None;
    }
    let a = i;
    i = i + 1;
    while i < n && !(line[i] == SP || line[i] == TAB || line[i] == CR)
        invariant
            a < i <= n,
            n == line@.len(),
            !is_ws(line@[a as int]),
            tok_end(line@, a as int) == tok_end(line@, i as int),
        decreases n - i,
    {
        i = i + 1;
    }
    proof {
        lemma_tok_end(line@, i as int);
    }
    Some((a, i))
}

/// Whether `line[a..b]` spells the mnemonic `m`.
fn range_matches(line: &[u8], a: usize, b: usize, m: &str) -> (r: bool)
    requires
        a <= b <= line@.len(),
    ensures
        r == (line@.subrange(a as int, b as int) == m.spec_bytes()),
{
    let mb = m.as_bytes();
    if b - a != mb.len() {
        proof {
            assert(line@.subrange(a as int, b as int).len() == b - a);
        }
        return false;
    }
    let mut i: usize = 0;
    while i < mb.len()
        invariant
            a <= b <= line@.len(),
            mb@ == m.spec_bytes(),
            b - a == mb@.len(),
            i <= mb@.len(),
            forall|j: int| 0 <= j < i ==> line@[a + j] == mb@[j],
        decreases mb@.len() - i,
    {
        if line[a + i] != mb[i] {
            proof {
                assert(line@.subrange(a as int, b as int)[i as int] != mb@[i as int]);
            }
            return false;
        }
        i = i + 1;
    }
    proof {
        assert(line@.subrange(a as int, b as int) =~= mb@);
    }
    true
}

/// Scan `line[a..b]` as a digit string, saturating at `0x10000` so that
/// any value too large for 16 bits is still recognized as such.
fn parse_digits(line: &[u8], a: usize, b: usize) -> (r: Option<u32>)
    requires
        a <= b <= line@.len(),
    ensures
        match r {
            Some(m) => uval(line@.subrange(a as int, b as int)) matches Some(v) && m == (if v
                > 0x10000 {
                0x10000int
            } else {
                v
            }),
            None => uval(line@.subrange(a as int, b as int)) is None,
        },
{
    if a == b {
        return None;
    }
    let mut i = a;
    let mut m: u32 = 0;
    while i < b
        invariant
            a <= i <= b <= line@.len(),
            all_digits(line@.subrange(a as int, i as int)),
            ({
                let v = digits_val(line@.subrange(a as int, i as int));
                m == if v > 0x10000 {
                    0x10000int
                } else {
                    v
                }
            }),
        decreases b - i,
    {
        let c = line[i];
        if c < D0 || c > D9 {
            proof {
                assert(line@.subrange(a as int, b as int)[i - a] == line@[i as int]);
                assert(!all_digits(line@.subrange(a as int, b as int)));
            }
            return None;
        }
        proof {
            let pre = line@.subrange(a as int, i as int);
            let post = line@.subrange(a as int, i + 1);
            assert(post.drop_last() =~= pre);
            assert(post.last() == line@[i as int]);
            assert(forall|j: int| 0 <= j < post.len() ==> is_digit(#[trigger] post[j]));
            assert(digits_val(post) == digits_val(pre) * 10 + (line@[i as int] - D0));
        }
        m = m * 10 + ((c - D0) as u32);
        if m > 0x10000 {
            m = 0x10000;
        }
        i = i + 1;
    }
    proof {
        assert(line@.subrange(a as int, i as int) =~= line@.subrange(a as int, b as int));
    }
    Some(m)
}

/// Parse `line[a..b]` as a program-address operand.
fn parse_addr(line: &[u8], a: usize, b: usize) -> (r: Option<ProgramAddress>)
    requires
        a <= b <= line@.len(),
    ensures
        r == addr_val(line@.subrange(a as int, b as int)),
{
    match parse_digits(line, a, b) {
        Some(m) => if m <= 0xFFFF {
            Some(m as u16)
        } else {
            None
        },
        None => None,
    }
}

/// Count the tokens of `line` at or after `pos`, `pos` itself lying on
/// whitespace or at the line's end.
fn count_toks(line: &[u8], pos: usize) -> (r: usize)
    requires
        pos <= line@.len(),
        pos == line@.len() || is_ws(line@[pos as int]),
    ensures
        r == toks_from(line@, pos as int).len(),
        2 * r <= line@.len() - pos + 1,
    decreases line@.len() - pos,
{
    match next_token(line, pos) {
        None => 0,
        Some((a, b)) => {
            proof {
                lemma_tok_end(line@, a as int);
            }
            let n = line.len();
            let rest = count_toks(line, b);
            proof {
                assert(2 * rest <= n - b + 1);
            }
            1 + rest
        },
    }
}

/// Decode a no-operand mnemonic spelled at `line[a..b]`.
fn match_noarg(line: &[u8], a: usize, b: usize) -> (r: Option<Instruction>)
    requires
        a <= b <= line@.len(),
    ensures
        r == spec_noarg(line@.subrange(a as int, b as int)),
{
    if range_matches(line, a, b, "halt") {
        Some(Instruction::Halt)
    } else if range_matches(line, a, b, "noop") {
        Some(Instruction::Noop)
    } else if range_matches(line, a, b, "push") {
        Some(Instruction::Push)
    } else if range_matches(line, a, b, "pop") {
        Some(Instruction::Pop)
    } else if range_matches(line, a, b, "dup") {
        Some(Instruction::Dup)
    } else if range_matches(line, a, b, "swap") {
        Some(Instruction::Swap)
    } else if range_matches(line, a, b, "ldt") {
        Some(Instruction::LoadTop)
    } else if range_matches(line, a, b, "over") {
        Some(Instruction::Over)
    } else if range_matches(line, a, b, "inc") {
        Some(Instruction::Inc)
    } else if range_matches(line, a, b, "dec") {
        Some(Instruction::Dec)
    } else if range_matches(line, a, b, "add") {
        Some(Instruction::Add)
    } else if range_matches(line, a, b, "sub") {
        Some(Instruction::Sub)
    } else if range_matches(line, a, b, "mul") {
        Some(Instruction::Mul)
    } else if range_matches(line, a, b, "div") {
        Some(Instruction::Div)
    } else if range_matches(line, a, b, "eq") {
        Some(Instruction::Eq)
    } else if range_matches(line, a, b, "neq") {
        Some(Instruction::Neq)
    } else if range_matches(line, a, b, "lt") {
        Some(Instruction::Lt)
    } else if range_matches(line, a, b, "lte") {
        Some(Instruction::Lte)
    } else if range_matches(line, a, b, "gt") {
        Some(Instruction::Gt)
    } else if range_matches(line, a, b, "gte") {
        Some(Instruction::Gte)
    } else if range_matches(line, a, b, "inv") {
        Some(Instruction::Inv)
    } else if range_matches(line, a, b, "ret") {
        Some(Instruction::Ret)
    } else {
        None
    }
}

/// Decode a jump-family mnemonic spelled at `line[a..b]`, giving its
/// instruction the address operand `addr`.
fn match_jump(line: &[u8], a: usize, b: usize, addr: ProgramAddress) -> (r: Option<Instruction>)
    requires
        a <= b <= line@.len(),
    ensures
        match spec_jump(line@.subrange(a as int, b as int)) {
            Some(i) => r == Some(i.with_address(addr)),
            None => r is None,
        },
{
    if range_matches(line, a, b, "jmp") {
        Some(Instruction::Jmp(addr))
    } else if range_matches(line, a, b, "jz") {
        Some(Instruction::JumpIfZero(addr))
    } else if range_matches(line, a, b, "jnz") {
        Some(Instruction::JumpIfNotZero(addr))
    } else if range_matches(line, a, b, "call") {
        Some(Instruction::Call(addr))
    } else {
        None
    }
}

/// Copy `line[a..b]` into an owned byte vector.
fn range_to_vec(line: &[u8], a: usize, b: usize) -> (r: Vec<u8>)
    requires
        a <= b <= line@.len(),
    ensures
        r@ == line@.subrange(a as int, b as int),
{
    vstd::slice::slice_to_vec(vstd::slice::slice_subrange(line, a, b))
}

/// Classify one source line and decode what it asks for, or report the
/// exact per-line error.
fn parse_line(line: &[u8]) -> (r: Result<LineAction, AssemblyErrorKind>)
    ensures
        match r {
            Ok(act) => match act {
                LineAction::Skip => is_skip(line@),
                LineAction::DefLabel { name } => is_label(line@) && name@ == label_name_of(line@),
                LineAction::EmitPlain { inst } => is_emit(line@) && !line_faulty(line@) && !has_sym(
                    line@,
                ) && inst == line_instr0(line@),
                LineAction::EmitSym { inst, name } => is_emit(line@) && !line_faulty(line@)
                    && has_sym(line@) && name@ == ref_name(line@) && inst == line_instr0(line@)
                    && inst.takes_address(),
            },
            Err(k) => is_emit(line@) && line_faulty(line@) && fault_kind_ok(line@, k),
        },
{
    let ghost ts = toks(line@);
    let (a0, b0) = match next_token(line, 0) {
        None => {
            return Ok(LineAction::Skip);
        },
        Some(t) => t,
    };
    proof {
        assert(ts[0] == line@.subrange(a0 as int, b0 as int));
        assert(ts[0][0] == line@[a0 as int]);
    }
    if line[a0] == SEMI {
        return Ok(LineAction::Skip);
    }
    proof {
        lemma_tok_end(line@, a0 as int);
    }
    let second = next_token(line, b0);
    match second {
        None => {
            // A lone token: a label definition or a no-operand mnemonic.
            proof {
                assert(ts.len() == 1);
            }
            if b0 - a0 >= 2 && line[b0 - 1] == COLON {
                proof {
                    assert(ts[0].last() == line@[b0 - 1]);
                    assert(ts[0].drop_last() =~= line@.subrange(a0 as int, b0 - 1));
                }
                return Ok(LineAction::DefLabel { name: range_to_vec(line, a0, b0 - 1) });
            }
            proof {
                assert(!is_label(line@));
            }
            match match_noarg(line, a0, b0) {
                Some(inst) => Ok(LineAction::EmitPlain { inst }),
                None => {
                    if range_matches(line, a0, b0, "load") {
                        return Err(
                            AssemblyErrorKind::WrongArity { expected: 1, got: 0 },
                        );
                    }
                    match match_jump(line, a0, b0, 0) {
                        Some(_) => Err(AssemblyErrorKind::WrongArity { expected: 1, got: 0 }),
                        None => Err(
                            AssemblyErrorKind::UnknownInstruction(range_to_vec(line, a0, b0)),
                        ),
                    }
                },
            }
        },
        Some((a1, b1)) => {
            proof {
                lemma_tok_end(line@, a1 as int);
                assert(toks_from(line@, b0 as int)[0] == line@.subrange(a1 as int, b1 as int));
                assert(ts[1] == line@.subrange(a1 as int, b1 as int));
            }
            let extra = count_toks(line, b1);
            let ntoks = 2 + extra;
            proof {
                assert(ts.len() == ntoks);
                assert(!is_label(line@));
            }
            match match_noarg(line, a0, b0) {
                Some(_) => Err(AssemblyErrorKind::WrongArity { expected: 0, got: ntoks - 1 }),
                None => {
                    if range_matches(line, a0, b0, "load") {
                        if ntoks != 2 {
                            return Err(
                                AssemblyErrorKind::WrongArity { expected: 1, got: ntoks - 1 },
                            );
                        }
                        return match parse_imm(line, a1, b1) {
                            Some(v) => Ok(
                                LineAction::EmitPlain { inst: Instruction::LoadImmediate(v) },
                            ),
                            None => Err(
                                AssemblyErrorKind::InvalidNumber(range_to_vec(line, a1, b1)),
                            ),
                        };
                    }
                    match match_jump(line, a0, b0, 0) {
                        Some(placeholder) => {
                            if ntoks != 2 {
                                return Err(
                                    AssemblyErrorKind::WrongArity { expected: 1, got: ntoks - 1 },
                                );
                            }
                            if line[a1] == AT {
                                proof {
                                    assert(ts[1].skip(1) =~= line@.subrange(a1 + 1, b1 as int));
                                }
                                return Ok(
                                    LineAction::EmitSym {
                                        inst: placeholder,
                                        name: range_to_vec(line, a1 + 1, b1),
                                    },
                                );
                            }
                            match parse_addr(line, a1, b1) {
                                Some(ad) => {
                                    let inst = match_jump(line, a0, b0, ad);
                                    Ok(LineAction::EmitPlain { inst: inst.unwrap() })
                                },
                                None => Err(
                                    AssemblyErrorKind::InvalidNumber(range_to_vec(line, a1, b1)),
                                ),
                            }
                        },
                        None => Err(
                            AssemblyErrorKind::UnknownInstruction(range_to_vec(line, a0, b0)),
                        ),
                    }
                },
            }
        },
    }
}

/// Parse `line[a..b]` as a `load` immediate operand.
fn parse_imm(line: &[u8], a: usize, b: usize) -> (r: Option<Immediate>)
    requires
        a <= b <= line@.len(),
    ensures
        r == imm_val(line@.subrange(a as int, b as int)),
{
    let t = Ghost(line@.subrange(a as int, b as int));
    if a < b && (line[a] == PLUS || line[a] == MINUS) {
        proof {
            assert(t@.skip(1) =~= line@.subrange(a + 1, b as int));
        }
        match parse_digits(line, a + 1, b) {
            Some(m) => {
                if line[a] == MINUS {
                    if m <= 0x8000 {
                        Some((-(m as i32)) as i16)
                    } else {
                        None
                    }
                } else {
                    if m <= 0x7FFF {
                        Some(m as i16)
                    } else {
                        None
                    }
                }
            },
            None => None,
        }
    } else {
        match parse_digits(line, a, b) {
            Some(m) => if m <= 0x7FFF {
                Some(m as i16)
            } else {
                None
            },
            None => None,
        }
    }
}

/// Assemble the source bytes into the caller-supplied instruction buffer
/// `dst` and return the number of instructions emitted, or the first error
/// with its 1-based source line.
///
/// The exact result is given by the mathematical assembler over
/// `lines_of(src@)`: assembly succeeds if and only if no line is faulty,
/// no line overruns the buffer's capacity, and every referenced label is
/// defined; the buffer then starts with [`prog`], every symbolic reference
/// patched with the address of its label's definition, and the slots after
/// the emitted instructions keep their old contents.  On an error nothing
/// past the capacity [`eff_cap`] has been written.
#[verifier::loop_isolation(false)]
#[verifier::rlimit(100)]
pub fn code_from_bytes(src: &[u8], dst: &mut [Instruction]) -> (r: Result<
    ProgramAddress,
    AssemblyError,
>)
    ensures
        final(dst)@.len() == old(dst)@.len(),
        ({
            let ls = lines_of(src@);
            let cap = eff_cap(old(dst)@.len());
            match r {
                Ok(n) => {
                    &&& first_fault(ls, cap) is None
                    &&& first_missing(ls) is None
                    &&& n == emit_count(ls, ls.len() as int)
                    &&& final(dst)@ =~= prog(ls, ls.len() as int) + old(dst)@.skip(n as int)
                },
                Err(e) => {
                    &&& match first_fault(ls, cap) {
                        Some(jf) => {
                            &&& e.line == jf + 1
                            &&& if line_faulty(ls[jf]) {
                                fault_kind_ok(ls[jf], e.kind)
                            } else {
                                e.kind is CodeTooBig
                            }
                        },
                        None => {
                            &&& first_missing(ls) matches Some(jm)
                            &&& e.line == jm + 1
                            &&& (e.kind matches AssemblyErrorKind::MissingLabelDefinition(nm)
                                && nm@ == ref_name(ls[jm]))
                        },
                    }
                    &&& forall|k: int|
                        cap <= k < old(dst)@.len() ==> final(dst)@[k] == old(dst)@[k]
                },
            }
        }),
{
    let n = src.len();
    let dlen = dst.len();
    let cap: u16 = if dlen < 0xFFFF {
        dlen as u16
    } else {
        0xFFFF
    };
    let ghost ls = lines_of(src@);
    let ghost L = ls.len() as int;
    let mut table: Vec<LabelEntry> = Vec::new();
    let mut count: u16 = 0;
    let mut pos: usize = 0;
    let mut j: usize = 0;
    let ghost mut jg: int = 0;
    proof {
        assert(cap as int == eff_cap(old(dst)@.len()));
        assert(ls.skip(0) =~= ls);
        assert(dst@ =~= prog0(ls, 0) + old(dst)@.skip(0));
        assert(ls.len() >= 1);
    }
    let mut done = false;
    while !done
        invariant
            !done ==> jg == j && j <= pos <= n && jg < ls.len() && lines_from(src@, pos as int)
                == ls.skip(jg),
            done ==> jg == ls.len(),
            n == src@.len(),
            dst@.len() == old(dst)@.len(),
            count <= cap,
            cap as int == eff_cap(old(dst)@.len()),
            0 <= jg <= ls.len(),
            count as int == emit_count(ls, jg),
            forall|i: int| 0 <= i < jg ==> !fault_at(ls, cap as int, i),
            dst@ == prog0(ls, jg) + old(dst)@.skip(count as int),
            table_inv(table@, ls, jg),
        decreases n - pos + (if done {
            0int
        } else {
            1int
        }),
    {
        let mut le = pos;
        while le < n && src[le] != NL
            invariant
                pos <= le <= n,
                line_end(src@, pos as int) == line_end(src@, le as int),
            decreases n - le,
        {
            le = le + 1;
        }
        proof {
            assert(line_end(src@, pos as int) == le);
            assert(ls.skip(jg)[0] == ls[jg]);
            assert(ls[jg] == src@.subrange(pos as int, le as int));
        }
        let line = vstd::slice::slice_subrange(src, pos, le);
        let ghost lj = ls[jg];
        match parse_line(line) {
            Err(k) => {
                proof {
                    assert(lj.len() > 0);
                    assert(pos < le);
                    assert(fault_at(ls, cap as int, jg));
                    lemma_first_fault_skip(ls, cap as int, 0, jg);
                    assert(first_fault(ls, cap as int) == Some(jg));
                }
                return Err(AssemblyError { kind: k, line: j + 1 });
            },
            Ok(LineAction::Skip) => {
                proof {
                    lemma_table_step_silent(table@, ls, jg);
                    assert(emit_count(ls, jg + 1) == emit_count(ls, jg));
                    assert(prog0(ls, jg + 1) =~= prog0(ls, jg));
                    assert(!fault_at(ls, cap as int, jg));
                }
            },
            Ok(LineAction::DefLabel { name }) => {
                apply_def(&mut table, name, count, Ghost(ls), Ghost(jg));
                proof {
                    assert(emit_count(ls, jg + 1) == emit_count(ls, jg));
                    assert(prog0(ls, jg + 1) =~= prog0(ls, jg));
                    assert(!fault_at(ls, cap as int, jg));
                }
            },
            Ok(LineAction::EmitPlain { inst }) => {
                proof {
                    assert(lj.len() > 0);
                    assert(pos < le);
                }
                if count >= cap {
                    proof {
                        assert(fault_at(ls, cap as int, jg));
                        lemma_first_fault_skip(ls, cap as int, 0, jg);
                        assert(first_fault(ls, cap as int) == Some(jg));
                    }
                    return Err(
                        AssemblyError { kind: AssemblyErrorKind::CodeTooBig, line: j + 1 },
                    );
                }
                proof {
                    lemma_prog_len(ls, jg);
                }
                dst[count as usize] = inst;
                proof {
                    assert(prog0(ls, jg + 1) =~= prog0(ls, jg) + seq![line_instr0(lj)]);
                    assert(dst@ =~= prog0(ls, jg + 1) + old(dst)@.skip(count + 1));
                    lemma_table_step_silent(table@, ls, jg);
                    assert(emit_count(ls, jg + 1) == emit_count(ls, jg) + 1);
                    assert(!fault_at(ls, cap as int, jg));
                }
                count = count + 1;
            },
            Ok(LineAction::EmitSym { inst, name }) => {
                proof {
                    assert(lj.len() > 0);
                    assert(pos < le);
                }
                if count >= cap {
                    proof {
                        assert(fault_at(ls, cap as int, jg));
                        lemma_first_fault_skip(ls, cap as int, 0, jg);
                        assert(first_fault(ls, cap as int) == Some(jg));
                    }
                    return Err(
                        AssemblyError { kind: AssemblyErrorKind::CodeTooBig, line: j + 1 },
                    );
                }
                proof {
                    lemma_prog_len(ls, jg);
                }
                dst[count as usize] = inst;
                let lin = j + 1;
                proof {
                    assert(emit_sym_to(ls, jg, name@));
                }
                apply_ref(&mut table, name, count, lin, Ghost(ls), Ghost(jg));
                proof {
                    assert(prog0(ls, jg + 1) =~= prog0(ls, jg) + seq![line_instr0(lj)]);
                    assert(dst@ =~= prog0(ls, jg + 1) + old(dst)@.skip(count + 1));
                    assert(emit_count(ls, jg + 1) == emit_count(ls, jg) + 1);
                    assert(!fault_at(ls, cap as int, jg));
                }
                count = count + 1;
            },
        }
        proof {
            jg = jg + 1;
        }
        if le == n {
            proof {
                assert(ls.skip(jg - 1).len() == 1);
                assert(jg == ls.len());
            }
            done = true;
        } else {
            pos = le + 1;
            j = j + 1;
            proof {
                assert(lines_from(src@, pos as int) =~= ls.skip(jg - 1).skip(1));
                assert(ls.skip(jg - 1).skip(1) =~= ls.skip(jg));
            }
        }
    }
    proof {
        lemma_first_fault_skip(ls, cap as int, 0, L);
        lemma_prog_len(ls, L);
        assert(forall|k: int| 0 <= k < count ==> dst@[k] == prog0(ls, L)[k]);
    }
    let ghost before_resolve = dst@;
    match resolve_fixups(dst, &table, count, Ghost(ls)) {
        Ok(()) => {
            proof {
                assert(dst@ =~= prog(ls, L) + old(dst)@.skip(count as int));
            }
            Ok(count)
        },
        Err(e) => {
            proof {
                assert forall|k: int|
                    cap <= k < old(dst)@.len() implies dst@[k] == old(dst)@[k] by {
                    assert(dst@[k] == before_resolve[k]);
                    assert(before_resolve[k] == old(dst)@.skip(count as int)[k - count]);
                }
            }
            Err(e)
        },
    }
}

/// Assemble line-oriented source text into the caller-supplied instruction
/// buffer `dst` and return the number of instructions emitted, or the
/// first error with its 1-based source line.
///
/// The format, one instruction or label definition per line:
/// - a line whose first non-blank byte is `;` is a comment; blank lines
///   are skipped;
/// - `name:` alone on its line binds the label `name` to the address of
///   the next emitted instruction; redefining a label is allowed, and
///   every `@name` reference resolves to the address bound by the label's
///   last definition;
/// - otherwise the line is a mnemonic (`halt`, `noop`, `load`, `push`,
///   `pop`, `dup`, `swap`, `ldt`, `over`, `inc`, `dec`, `add`, `sub`,
///   `mul`, `div`, `eq`, `neq`, `lt`, `lte`, `gt`, `gte`, `inv`, `jmp`,
///   `jz`, `jnz`, `call`, `ret`) with exactly the operand count it
///   expects: a signed 16-bit decimal for `load`, and either an unsigned
///   16-bit decimal address or `@name` for `jmp`/`jz`/`jnz`/`call`.
///
/// The contract is [`code_from_bytes`]'s, over the UTF-8 bytes of `src`.
pub fn code_from_str(src: &str, dst: &mut [Instruction]) -> (r: Result<
    ProgramAddress,
    AssemblyError,
>)
    ensures
        final(dst)@.len() == old(dst)@.len(),
        ({
            let ls = lines_of(src.spec_bytes());
            let cap = eff_cap(old(dst)@.len());
            match r {
                Ok(n) => {
                    &&& first_fault(ls, cap) is None
                    &&& first_missing(ls) is None
                    &&& n == emit_count(ls, ls.len() as int)
                    &&& final(dst)@ =~= prog(ls, ls.len() as int) + old(dst)@.skip(n as int)
                },
                Err(e) => {
                    &&& match first_fault(ls, cap) {
                        Some(jf) => {
                            &&& e.line == jf + 1
                            &&& if line_faulty(ls[jf]) {
                                fault_kind_ok(ls[jf], e.kind)
                            } else {
                                e.kind is CodeTooBig
                            }
                        },
                        None => {
                            &&& first_missing(ls) matches Some(jm)
                            &&& e.line == jm + 1
                            &&& (e.kind matches AssemblyErrorKind::MissingLabelDefinition(nm)
                                && nm@ == ref_name(ls[jm]))
                        },
                    }
                    &&& forall|k: int|
                        cap <= k < old(dst)@.len() ==> final(dst)@[k] == old(dst)@[k]
                },
            }
        }),
{
    code_from_bytes(src.as_bytes(), dst)
}

/// Assembling a single-line program that spells one recognized mnemonic
/// with a syntactically valid, non-symbolic operand (or none, where none
/// is expected) yields exactly one instruction of the matching opcode and
/// operand, and no error.
pub proof fn lemma_single_instruction_line(l: Seq<u8>, cap: int)
    requires
        forall|i: int| 0 <= i < l.len() ==> l[i] != NL,
        is_emit(l),
        !line_faulty(l),
        !has_sym(l),
        cap >= 1,
    ensures
        lines_of(l) =~= seq![l],
        first_fault(lines_of(l), cap) is None,
        first_missing(lines_of(l)) is None,
        emit_count(lines_of(l), 1) == 1,
        prog(lines_of(l), 1) =~= seq![line_instr0(l)],
{
    lemma_line_end(l, 0);
    assert(line_end(l, 0) == l.len());
    assert(l.subrange(0, l.len() as int) =~= l);
    let ls = lines_of(l);
    assert(ls =~= seq![l]);
    assert(!fault_at(ls, cap, 0));
    assert(!missing_at(ls, 0));
    assert(first_fault_from(ls, cap, 0) == first_fault_from(ls, cap, 1));
    assert(first_missing_from(ls, 0) == first_missing_from(ls, 1));
    assert(line_instr(ls, 0) == line_instr0(l));
    assert(prog(ls, 1) =~= prog(ls, 0) + seq![line_instr(ls, 0)]);
}

/// After successful assembly, the patched address of every instruction
/// that referenced a label symbolically equals the address bound to that
/// label's definition — whether the reference preceded or followed the
/// definition line.
pub proof fn lemma_labels_resolved(ls: Seq<Seq<u8>>, j: int)
    requires
        0 <= j < ls.len(),
        is_emit(ls[j]),
        !line_faulty(ls[j]),
        has_sym(ls[j]),
        label_defined(ls, ref_name(ls[j])),
    ensures
        emit_count(ls, j) < emit_count(ls, ls.len() as int),
        prog(ls, ls.len() as int)[emit_count(ls, j)] == line_instr0(ls[j]).with_address(
            label_addr(ls, ref_name(ls[j])),
        ),
{
    lemma_prog_index(ls, j, ls.len() as int);
}

} // verus!
