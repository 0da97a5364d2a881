use handheld::instruction::Instruction;
use handheld::parse::{parse_instruction, read_all_instructions};

fn sample_lines() -> Vec<String> {
    vec![
        "nop +0".to_string(),
        "acc +1".to_string(),
        "jmp +4".to_string(),
        "acc +3".to_string(),
        "jmp -3".to_string(),
        "acc -99".to_string(),
        "acc +1".to_string(),
        "jmp -4".to_string(),
        "acc +6".to_string(),
    ]
}

#[test]
fn can_parse_an_instruction() {
    let nop = parse_instruction("nop +0");
    assert!(matches!(nop, Some(Instruction::Nop(_))));

    let acc = parse_instruction("acc +1");
    assert!(matches!(acc, Some(Instruction::Acc(1))));

    let jmp = parse_instruction("jmp +4");
    assert!(matches!(jmp, Some(Instruction::Jmp(4))));
}

#[test]
fn can_read_all_instructions() {
    let code = sample_lines();
    let instructions = read_all_instructions(&code).unwrap();
    assert_eq!(9, instructions.len());
}

#[test]
fn parses_negative_operand() {
    assert!(matches!(parse_instruction("jmp -3"), Some(Instruction::Jmp(-3))));
}

#[test]
fn rejects_unknown_opcode() {
    assert!(parse_instruction("foo +1").is_none());
}

#[test]
fn rejects_missing_sign() {
    assert!(parse_instruction("acc 12").is_none());
}

#[test]
fn rejects_short_line() {
    assert!(parse_instruction("").is_none());
    assert!(parse_instruction("acc 1").is_none());
}

#[test]
fn rejects_trailing_text() {
    assert!(parse_instruction("nop +0 x").is_none());
}

#[test]
fn accepts_extreme_operands() {
    assert!(matches!(
        parse_instruction("acc +9223372036854775807"),
        Some(Instruction::Acc(i64::MAX))
    ));
    assert!(matches!(
        parse_instruction("acc -9223372036854775808"),
        Some(Instruction::Acc(i64::MIN))
    ));
}

#[test]
fn rejects_operand_overflow() {
    assert!(parse_instruction("acc +9223372036854775808").is_none());
    assert!(parse_instruction("acc -9223372036854775809").is_none());
}

#[test]
fn rejects_listing_with_one_bad_line() {
    let mut code = sample_lines();
    code.push("hlt +1".to_string());
    assert!(read_all_instructions(&code).is_none());
}
