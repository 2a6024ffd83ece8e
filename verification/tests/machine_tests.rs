use stackvm::archi::{Instruction, CALLSTACK_SIZE, STACK_SIZE};
use stackvm::assembler::code_from_str;
use stackvm::machine::{Machine, MachineError, MachineErrorKind};

fn run_source(src: &str) -> (Machine, Result<(), MachineError>) {
    let mut buf = vec![Instruction::Halt; 256];
    let n = code_from_str(src, &mut buf).expect("assembly failed") as usize;
    let mut m = Machine::new();
    let r = m.run(&buf[..n]);
    (m, r)
}

#[test]
fn new_machine_is_zeroed() {
    let m = Machine::new();
    assert_eq!(m.pc, 0);
    assert_eq!(m.sp, 0);
    assert_eq!(m.fp, 0);
    assert_eq!(m.acc, 0);
    assert_eq!(m.stack.len(), STACK_SIZE);
    assert_eq!(m.call_stack.len(), CALLSTACK_SIZE);
}

#[test]
fn add_combines_acc_with_the_popped_top() {
    // acc is the left operand: 3 + popped 3 = 6, one value left behind
    let (m, r) = run_source("load 5\npush\nload 3\npush\nadd\nhalt\n");
    assert!(r.is_ok());
    assert_eq!(m.acc, 6);
    assert_eq!(m.sp, 1);
    assert_eq!(m.pc, 5); // the halt instruction's address
}

#[test]
fn five_plus_three_is_eight() {
    let (m, r) = run_source("load 5\npush\nload 3\nadd\nhalt\n");
    assert!(r.is_ok());
    assert_eq!(m.acc, 8);
    assert_eq!(m.sp, 0);
    assert_eq!(m.pc, 4);
}

#[test]
fn division_by_zero_error_kind_and_pc() {
    // push a zero divisor, then divide acc = 5 by it
    let (m, r) = run_source("load 0\npush\nload 5\ndiv\nhalt\n");
    let e = r.unwrap_err();
    assert_eq!(e.kind, MachineErrorKind::DivisionByZero);
    assert_eq!(e.pc, 3);
    assert_eq!(m.pc, 3);
    assert_eq!(m.acc, 5);
    assert_eq!(m.sp, 1); // the fault leaves the machine untouched
}

#[test]
fn division_truncates_toward_zero() {
    let (m, r) = run_source("load 3\npush\nload -7\ndiv\nhalt\n");
    assert!(r.is_ok());
    assert_eq!(m.acc, -2);
}

#[test]
fn pop_on_empty_stack_underflows() {
    let mut m = Machine::new();
    let e = m.pop().unwrap_err();
    assert_eq!(e.kind, MachineErrorKind::StackUnderflow);
    assert_eq!(m.sp, 0);
}

#[test]
fn pop_frame_on_empty_call_stack_underflows() {
    let mut m = Machine::new();
    let e = m.pop_frame().unwrap_err();
    assert_eq!(e.kind, MachineErrorKind::CallStackUnderflow);
    assert_eq!(m.fp, 0);
}

#[test]
fn ret_without_call_faults() {
    let (_, r) = run_source("ret\n");
    assert_eq!(r.unwrap_err().kind, MachineErrorKind::CallStackUnderflow);
}

#[test]
fn push_and_pop_round_trip() {
    let mut m = Machine::new();
    m.push(41).unwrap();
    m.push(-3).unwrap();
    assert_eq!(m.sp, 2);
    assert_eq!(m.pop().unwrap(), -3);
    assert_eq!(m.pop().unwrap(), 41);
    assert_eq!(m.sp, 0);
}

#[test]
fn call_returns_just_past_the_call_site() {
    // call f, then load 1 must run exactly once after the return
    let (m, r) = run_source("call @f\nload 1\nhalt\nf:\nload 5\nret\n");
    assert!(r.is_ok());
    assert_eq!(m.acc, 1);
    assert_eq!(m.pc, 2);
    assert_eq!(m.fp, 0);
}

#[test]
fn recursion_deeper_than_the_call_stack_overflows() {
    let (m, r) = run_source("boom:\ncall @boom\nhalt\n");
    let e = r.unwrap_err();
    assert_eq!(e.kind, MachineErrorKind::CallStackOverflow);
    assert_eq!(e.pc, 0);
    assert_eq!(m.fp, CALLSTACK_SIZE);
}

#[test]
fn forward_jump_skips_the_intervening_code() {
    let (m, r) = run_source("jmp @skip\nload 99\nskip:\nload 1\nhalt\n");
    assert!(r.is_ok());
    assert_eq!(m.acc, 1);
}

#[test]
fn conditional_jumps_follow_the_accumulator() {
    // acc = 0: jz taken
    let (m, r) = run_source("jz @t\nload 99\nhalt\nt:\nload 1\nhalt\n");
    assert!(r.is_ok());
    assert_eq!(m.acc, 1);
    // acc = 0: jnz falls through
    let (m2, r2) = run_source("jnz @t\nload 2\nhalt\nt:\nload 1\nhalt\n");
    assert!(r2.is_ok());
    assert_eq!(m2.acc, 2);
}

#[test]
fn comparisons_normalize_to_flags() {
    let cases: &[(&str, i32)] = &[
        ("load 3\npush\nload 3\neq\nhalt\n", 1),
        ("load 3\npush\nload 4\neq\nhalt\n", 0),
        ("load 3\npush\nload 4\nneq\nhalt\n", 1),
        // acc is the left operand, the popped value the right one
        ("load 5\npush\nload 3\nlt\nhalt\n", 1),
        ("load 3\npush\nload 3\nlte\nhalt\n", 1),
        ("load 3\npush\nload 5\ngt\nhalt\n", 1),
        ("load 5\npush\nload 3\ngte\nhalt\n", 0),
    ];
    for (src, want) in cases {
        let (m, r) = run_source(src);
        assert!(r.is_ok(), "source {:?}", src);
        assert_eq!(m.acc, *want, "source {:?}", src);
    }
}

#[test]
fn inv_flips_only_the_flag_one() {
    let (m, _) = run_source("load 1\ninv\nhalt\n");
    assert_eq!(m.acc, 0);
    let (m2, _) = run_source("load 7\ninv\nhalt\n");
    assert_eq!(m2.acc, 1);
}

#[test]
fn sub_mul_use_acc_as_left_operand() {
    let (m, _) = run_source("load 3\npush\nload 10\nsub\nhalt\n");
    assert_eq!(m.acc, 7);
    let (m2, _) = run_source("load 4\npush\nload -6\nmul\nhalt\n");
    assert_eq!(m2.acc, -24);
}

#[test]
fn inc_dec_wrap_around() {
    let mut m = Machine::new();
    m.acc = i32::MAX;
    let r = m.execute_instruction(Instruction::Inc);
    assert!(r.is_ok());
    assert_eq!(m.acc, i32::MIN);
    let r2 = m.execute_instruction(Instruction::Dec);
    assert!(r2.is_ok());
    assert_eq!(m.acc, i32::MAX);
}

#[test]
fn stack_ops_address_the_top_consistently() {
    // stack: [10, 20], acc = 99
    let (m, r) = run_source("load 10\npush\nload 20\npush\nload 99\nldt\nhalt\n");
    assert!(r.is_ok());
    assert_eq!(m.acc, 20);
    let (m2, _) = run_source("load 10\npush\nload 20\npush\nload 99\nover\nhalt\n");
    assert_eq!(m2.acc, 10);
    let (m3, _) = run_source("load 10\npush\nload 20\npush\nswap\npop\nhalt\n");
    assert_eq!(m3.acc, 10);
    let (m4, _) = run_source("load 10\npush\ndup\npop\npop\nhalt\n");
    assert_eq!(m4.sp, 0);
    assert_eq!(m4.acc, 10);
}

#[test]
fn dup_and_ldt_on_empty_stack_underflow() {
    let (_, r) = run_source("dup\nhalt\n");
    assert_eq!(r.unwrap_err().kind, MachineErrorKind::StackUnderflow);
    let (_, r2) = run_source("ldt\nhalt\n");
    assert_eq!(r2.unwrap_err().kind, MachineErrorKind::StackUnderflow);
    let (_, r3) = run_source("over\nhalt\n");
    assert_eq!(r3.unwrap_err().kind, MachineErrorKind::StackUnderflow);
    let (_, r4) = run_source("swap\nhalt\n");
    assert_eq!(r4.unwrap_err().kind, MachineErrorKind::StackUnderflow);
}

#[test]
fn push_on_full_stack_overflows() {
    let mut m = Machine::new();
    m.sp = STACK_SIZE;
    let e = m.push(1).unwrap_err();
    assert_eq!(e.kind, MachineErrorKind::StackOverflow);
    assert_eq!(m.sp, STACK_SIZE);
}

#[test]
fn pc_out_of_range_halts_normally() {
    let (m, r) = run_source("load 2\n");
    assert!(r.is_ok());
    assert_eq!(m.acc, 2);
    assert_eq!(m.pc, 1);
}

#[test]
fn load_sign_extends_into_the_accumulator() {
    let (m, _) = run_source("load -1\nhalt\n");
    assert_eq!(m.acc, -1i32);
}

#[test]
fn mul_wraps_on_overflow() {
    let mut m = Machine::new();
    m.acc = i32::MAX;
    m.stack[0] = 2;
    m.sp = 1;
    assert!(m.execute_instruction(Instruction::Mul).is_ok());
    assert_eq!(m.acc, i32::MAX.wrapping_mul(2));
    assert_eq!(m.sp, 0);
}

#[test]
fn div_min_by_minus_one_wraps() {
    let mut m = Machine::new();
    m.acc = i32::MIN;
    m.stack[0] = -1;
    m.sp = 1;
    assert!(m.execute_instruction(Instruction::Div).is_ok());
    assert_eq!(m.acc, i32::MIN);
}
