use handheld::instruction::Instruction;
use handheld::machine::Computer;
use handheld::parse::read_all_instructions;
use handheld::repair::{find_repair, flip_after};

fn sample_program() -> Vec<Instruction> {
    let code = vec![
        "nop +0".to_string(),
        "acc +1".to_string(),
        "jmp +4".to_string(),
        "acc +3".to_string(),
        "jmp -3".to_string(),
        "acc -99".to_string(),
        "acc +1".to_string(),
        "jmp -4".to_string(),
        "acc +6".to_string(),
    ];
    read_all_instructions(&code).unwrap()
}

#[test]
fn example_program_is_repaired_by_flipping_index_seven() {
    let program = sample_program();
    let mut computer = Computer::new();
    assert!(matches!(computer.execute(&program), Err(5)));

    let (next, candidate) = flip_after(&program, 7);
    assert_eq!(next, 8);
    assert!(matches!(candidate[7], Instruction::Nop(-4)));
    assert_eq!(computer.execute(&candidate), Ok(8));

    assert_eq!(find_repair(&program), Some(8));
}

#[test]
fn flip_twice_restores_the_program() {
    let program = vec![Instruction::Acc(1), Instruction::Jmp(-3)];
    let (next, flipped) = flip_after(&program, 0);
    assert_eq!(next, 2);
    assert!(matches!(flipped[1], Instruction::Nop(-3)));
    let (again, restored) = flip_after(&flipped, 1);
    assert_eq!(again, 2);
    assert_eq!(restored, program);
}

#[test]
fn flip_skips_accumulate_instructions() {
    let program = vec![Instruction::Acc(1), Instruction::Acc(2), Instruction::Nop(0)];
    let (next, flipped) = flip_after(&program, 0);
    assert_eq!(next, 3);
    assert!(matches!(flipped[2], Instruction::Jmp(0)));
    assert!(matches!(flipped[0], Instruction::Acc(1)));
    assert!(matches!(flipped[1], Instruction::Acc(2)));
}

#[test]
fn flip_returns_length_when_nothing_is_flippable() {
    let program = vec![Instruction::Acc(1), Instruction::Acc(2)];
    let (next, unchanged) = flip_after(&program, 0);
    assert_eq!(next, 2);
    assert_eq!(unchanged, program);
}

#[test]
fn search_is_exhausted_without_flip_candidates() {
    let program = vec![Instruction::Acc(5)];
    assert_eq!(find_repair(&program), None);
}

#[test]
fn single_jmp_zero_is_repaired_to_a_halting_nop() {
    let program = vec![Instruction::Jmp(0)];
    assert_eq!(find_repair(&program), Some(0));
}

#[test]
fn search_tries_candidates_in_ascending_index_order() {
    let program = vec![Instruction::Nop(2), Instruction::Nop(2), Instruction::Acc(5)];
    assert_eq!(find_repair(&program), Some(5));
}

#[test]
fn search_leaves_the_original_program_unchanged() {
    let program = sample_program();
    let pristine = program.clone();
    let _ = flip_after(&program, 0);
    let _ = find_repair(&program);
    assert_eq!(program, pristine);
}
