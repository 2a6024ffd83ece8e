use stackvm::archi::Instruction;
use stackvm::assembler::{code_from_str, AssemblyError, AssemblyErrorKind};

fn assemble(src: &str, cap: usize) -> (Result<u16, AssemblyError>, Vec<Instruction>) {
    let mut buf = vec![Instruction::Halt; cap];
    let r = code_from_str(src, &mut buf);
    (r, buf)
}

#[test]
fn one_line_each_mnemonic() {
    let cases: &[(&str, Instruction)] = &[
        ("halt", Instruction::Halt),
        ("noop", Instruction::Noop),
        ("load 5", Instruction::LoadImmediate(5)),
        ("load -7", Instruction::LoadImmediate(-7)),
        ("load +9", Instruction::LoadImmediate(9)),
        ("load 32767", Instruction::LoadImmediate(32767)),
        ("load -32768", Instruction::LoadImmediate(-32768)),
        ("push", Instruction::Push),
        ("pop", Instruction::Pop),
        ("dup", Instruction::Dup),
        ("swap", Instruction::Swap),
        ("ldt", Instruction::LoadTop),
        ("over", Instruction::Over),
        ("inc", Instruction::Inc),
        ("dec", Instruction::Dec),
        ("add", Instruction::Add),
        ("sub", Instruction::Sub),
        ("mul", Instruction::Mul),
        ("div", Instruction::Div),
        ("eq", Instruction::Eq),
        ("neq", Instruction::Neq),
        ("lt", Instruction::Lt),
        ("lte", Instruction::Lte),
        ("gt", Instruction::Gt),
        ("gte", Instruction::Gte),
        ("inv", Instruction::Inv),
        ("jmp 7", Instruction::Jmp(7)),
        ("jz 0", Instruction::JumpIfZero(0)),
        ("jnz 65535", Instruction::JumpIfNotZero(65535)),
        ("call 12", Instruction::Call(12)),
        ("ret", Instruction::Ret),
    ];
    for (src, want) in cases {
        let (r, buf) = assemble(src, 4);
        assert_eq!(r.ok(), Some(1), "source {:?}", src);
        assert_eq!(buf[0], *want, "source {:?}", src);
    }
}

#[test]
fn comments_and_blank_lines_are_skipped() {
    let (r, buf) = assemble("; a comment\n\n   \nnoop\n  ; trailing comment\nhalt\n", 4);
    assert_eq!(r.ok(), Some(2));
    assert_eq!(buf[0], Instruction::Noop);
    assert_eq!(buf[1], Instruction::Halt);
}

#[test]
fn forward_reference_is_patched() {
    let (r, buf) = assemble("jmp @skip\nload 99\nskip:\nload 1\nhalt\n", 8);
    assert_eq!(r.ok(), Some(4));
    assert_eq!(buf[0], Instruction::Jmp(2));
    assert_eq!(buf[2], Instruction::LoadImmediate(1));
}

#[test]
fn label_with_trailing_instruction_is_rejected() {
    // a label definition stands alone on its line
    let (r, _) = assemble("skip: load 1\n", 8);
    assert_eq!(
        r.unwrap_err().kind,
        AssemblyErrorKind::UnknownInstruction(b"skip:".to_vec())
    );
}

#[test]
fn backward_reference_is_patched() {
    let (r, buf) = assemble("top:\nload 1\njnz @top\nhalt\n", 8);
    assert_eq!(r.ok(), Some(3));
    assert_eq!(buf[1], Instruction::JumpIfNotZero(0));
}

#[test]
fn call_reference_is_patched() {
    let (r, buf) = assemble("call @f\nhalt\nf: ret\n", 8);
    // "f: ret" is two tokens, so "f:" is not a label line there
    assert!(r.is_err());
    let _ = buf;
    let (r2, buf2) = assemble("call @f\nhalt\nf:\nret\n", 8);
    assert_eq!(r2.ok(), Some(3));
    assert_eq!(buf2[0], Instruction::Call(2));
}

#[test]
fn label_redefinition_last_wins() {
    // every reference resolves to the address of the label's last definition
    let (r, buf) = assemble("l:\njmp @l\nl:\nhalt\n", 8);
    assert_eq!(r.ok(), Some(2));
    assert_eq!(buf[0], Instruction::Jmp(1));
}

#[test]
fn missing_label_is_reported_at_first_reference() {
    let (r, _) = assemble("noop\njmp @nowhere\nhalt\n", 8);
    let e = r.unwrap_err();
    assert_eq!(e.line, 2);
    assert_eq!(
        e.kind,
        AssemblyErrorKind::MissingLabelDefinition(b"nowhere".to_vec())
    );
}

#[test]
fn unknown_instruction_is_reported() {
    let (r, _) = assemble("noop\nfrobnicate\n", 8);
    let e = r.unwrap_err();
    assert_eq!(e.line, 2);
    assert_eq!(
        e.kind,
        AssemblyErrorKind::UnknownInstruction(b"frobnicate".to_vec())
    );
}

#[test]
fn wrong_arity_missing_operand() {
    let (r, _) = assemble("load\n", 8);
    let e = r.unwrap_err();
    assert_eq!(e.line, 1);
    assert_eq!(e.kind, AssemblyErrorKind::WrongArity { expected: 1, got: 0 });
}

#[test]
fn wrong_arity_extra_operand() {
    let (r, _) = assemble("push 5\n", 8);
    let e = r.unwrap_err();
    assert_eq!(e.line, 1);
    assert_eq!(e.kind, AssemblyErrorKind::WrongArity { expected: 0, got: 1 });
}

#[test]
fn invalid_number_is_reported() {
    let (r, _) = assemble("load abc\n", 8);
    let e = r.unwrap_err();
    assert_eq!(e.line, 1);
    assert_eq!(e.kind, AssemblyErrorKind::InvalidNumber(b"abc".to_vec()));
}

#[test]
fn immediate_out_of_range_is_invalid() {
    let (r, _) = assemble("load 32768\n", 8);
    assert_eq!(
        r.unwrap_err().kind,
        AssemblyErrorKind::InvalidNumber(b"32768".to_vec())
    );
    let (r2, _) = assemble("load -32769\n", 8);
    assert_eq!(
        r2.unwrap_err().kind,
        AssemblyErrorKind::InvalidNumber(b"-32769".to_vec())
    );
}

#[test]
fn address_out_of_range_is_invalid() {
    let (r, _) = assemble("jmp 65536\n", 8);
    assert_eq!(
        r.unwrap_err().kind,
        AssemblyErrorKind::InvalidNumber(b"65536".to_vec())
    );
}

#[test]
fn code_too_big_at_overflowing_line() {
    let mut buf = vec![Instruction::Noop; 2];
    let sentinel = Instruction::LoadImmediate(42);
    // an untouched slot keeps its old contents
    buf[1] = sentinel;
    let r = code_from_str("inc\n; filler\ninc\ninc\n", &mut buf);
    let e = r.unwrap_err();
    assert_eq!(e.kind, AssemblyErrorKind::CodeTooBig);
    assert_eq!(e.line, 4);
    assert_eq!(buf[0], Instruction::Inc);
}

#[test]
fn capacity_exactly_filled_is_fine() {
    let (r, buf) = assemble("inc\ndec\n", 2);
    assert_eq!(r.ok(), Some(2));
    assert_eq!(buf, vec![Instruction::Inc, Instruction::Dec]);
}

#[test]
fn slots_past_the_emitted_code_are_untouched() {
    let mut buf = vec![Instruction::LoadImmediate(7); 4];
    let r = code_from_str("inc\n", &mut buf);
    assert_eq!(r.ok(), Some(1));
    assert_eq!(buf[0], Instruction::Inc);
    assert_eq!(buf[1], Instruction::LoadImmediate(7));
    assert_eq!(buf[3], Instruction::LoadImmediate(7));
}

#[test]
fn empty_source_assembles_to_nothing() {
    let (r, _) = assemble("", 4);
    assert_eq!(r.ok(), Some(0));
}

#[test]
fn lone_colon_is_not_a_label() {
    let (r, _) = assemble(":\n", 4);
    assert_eq!(
        r.unwrap_err().kind,
        AssemblyErrorKind::UnknownInstruction(b":".to_vec())
    );
}

#[test]
fn windows_line_endings_are_accepted() {
    let (r, buf) = assemble("load 3\r\npush\r\nhalt\r\n", 4);
    assert_eq!(r.ok(), Some(3));
    assert_eq!(buf[0], Instruction::LoadImmediate(3));
    assert_eq!(buf[1], Instruction::Push);
}

#[test]
fn at_most_sixteen_bit_many_instructions() {
    // even a larger buffer cannot hold more instructions than program
    // addresses exist
    let mut buf = vec![Instruction::Halt; 70_000];
    let src = "inc\n".repeat(65_536);
    let e = code_from_str(&src, &mut buf).unwrap_err();
    assert_eq!(e.kind, AssemblyErrorKind::CodeTooBig);
    assert_eq!(e.line, 65_536);
}

#[test]
fn leading_zeroes_parse() {
    let (r, buf) = assemble("load 007\njmp 010\n", 4);
    assert_eq!(r.ok(), Some(2));
    assert_eq!(buf[0], Instruction::LoadImmediate(7));
    assert_eq!(buf[1], Instruction::Jmp(10));
}
