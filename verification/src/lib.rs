//! A three-instruction virtual machine: programs are sequences of
//! no-operation, accumulate and jump instructions.  The machine runs a
//! program from index 0 and detects the first revisit of an instruction
//! index; a repair search flips a single no-operation/jump instruction so
//! that a looping program halts cleanly.

pub mod instruction;
pub mod machine;
pub mod parse;
pub mod repair;
