//! The instruction set: three opcodes, each carrying one signed operand.

use vstd::prelude::*;

verus! {

/// One machine instruction.  `Nop` advances by one position and leaves the
/// accumulator alone, `Acc` adds its operand to the accumulator and advances
/// by one position, `Jmp` moves the instruction pointer by its operand.
#[derive(Copy, Clone, PartialEq, Eq, Structural, Debug)]
pub enum Instruction {
    Nop(i64),
    Acc(i64),
    Jmp(i64),
}

/// A program is an ordered sequence of instructions; index 0 is the entry
/// point.
pub type Program = Vec<Instruction>;

/// An instruction the repair search may flip: a no-operation or a jump.
pub open spec fn is_flippable(i: Instruction) -> bool {
    i is Nop || i is Jmp
}

/// The single-instruction mutation the repair search tries: a no-operation
/// becomes a jump with the same operand and vice versa; an accumulate
/// instruction is left alone.
pub open spec fn flip_instruction(i: Instruction) -> Instruction {
    match i {
        Instruction::Nop(n) => Instruction::Jmp(n),
        Instruction::Jmp(n) => Instruction::Nop(n),
        Instruction::Acc(n) => Instruction::Acc(n),
    }
}

/// Flipping is an involution: applying it twice restores the instruction.
pub proof fn lemma_flip_involution(i: Instruction)
    ensures
        flip_instruction(flip_instruction(i)) == i,
{
}

/// Flipping preserves flippability.
pub proof fn lemma_flip_keeps_flippable(i: Instruction)
    ensures
        is_flippable(flip_instruction(i)) == is_flippable(i),
{
}

/// Runtime test for `is_flippable`.
pub fn instruction_is_flippable(i: Instruction) -> (r: bool)
    ensures
        r == is_flippable(i),
{
    match i {
        Instruction::Nop(_) => true,
        Instruction::Jmp(_) => true,
        Instruction::Acc(_) => false,
    }
}

} // verus!
