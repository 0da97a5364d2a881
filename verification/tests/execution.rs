use handheld::instruction::Instruction;
use handheld::machine::{Computer, RunOutcome};
use handheld::parse::read_all_instructions;

fn sample_program() -> Vec<Instruction> {
    let code = vec![
        "nop +0".to_string(),
        "acc +1".to_string(),
        "jmp +4".to_string(),
        "acc +3".to_string(),
        "jmp -3".to_string(),
        "acc -99".to_string(),
        "acc +1".to_string(),
        "jmp -4".to_string(),
        "acc +6".to_string(),
    ];
    read_all_instructions(&code).unwrap()
}

#[test]
fn returns_the_correct_error_on_loop_detection() {
    let program = sample_program();
    let mut computer = Computer::new();
    assert!(matches!(computer.execute(&program), Err(5)));
}

#[test]
fn halts_with_sum_when_no_jumps() {
    let program = vec![
        Instruction::Acc(1),
        Instruction::Nop(7),
        Instruction::Acc(3),
        Instruction::Acc(-2),
    ];
    let mut computer = Computer::new();
    assert_eq!(computer.execute(&program), Ok(2));
}

#[test]
fn single_acc_halts_immediately() {
    let program = vec![Instruction::Acc(5)];
    let mut computer = Computer::new();
    assert_eq!(computer.execute(&program), Ok(5));
}

#[test]
fn single_jmp_zero_loops_with_zero_accumulator() {
    let program = vec![Instruction::Jmp(0)];
    let mut computer = Computer::new();
    assert_eq!(computer.execute(&program), Err(0));
}

#[test]
fn single_nop_halts_with_zero_accumulator() {
    let program = vec![Instruction::Nop(0)];
    let mut computer = Computer::new();
    assert_eq!(computer.execute(&program), Ok(0));
}

#[test]
fn loop_reports_accumulator_before_second_visit() {
    let program = vec![Instruction::Acc(7), Instruction::Jmp(-1)];
    let mut computer = Computer::new();
    assert_eq!(computer.execute(&program), Err(7));
}

#[test]
fn empty_program_halts_immediately() {
    let program: Vec<Instruction> = vec![];
    let mut computer = Computer::new();
    assert_eq!(computer.execute(&program), Ok(0));
}

#[test]
fn run_reports_fault_on_negative_target() {
    let program = vec![Instruction::Jmp(-1)];
    let mut computer = Computer::new();
    assert!(matches!(computer.run(&program), RunOutcome::Faulted));
}

#[test]
fn run_reports_fault_past_the_end() {
    let program = vec![Instruction::Jmp(5)];
    let mut computer = Computer::new();
    assert!(matches!(computer.run(&program), RunOutcome::Faulted));
}

#[test]
fn jump_to_exact_end_is_a_clean_halt() {
    let program = vec![Instruction::Jmp(2), Instruction::Acc(9)];
    let mut computer = Computer::new();
    assert_eq!(computer.execute(&program), Ok(0));
}

#[test]
fn engine_is_reset_between_runs() {
    let mut computer = Computer::new();
    let looping = sample_program();
    assert!(matches!(computer.execute(&looping), Err(5)));
    let plain = vec![Instruction::Acc(4)];
    assert_eq!(computer.execute(&plain), Ok(4));
    assert!(matches!(computer.execute(&looping), Err(5)));
}
