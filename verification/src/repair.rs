//! The repair search: candidate programs differing from the original in one
//! flipped instruction, tried in ascending index order until one halts.

use vstd::prelude::*;
use crate::instruction::{
    flip_instruction, instruction_is_flippable, is_flippable, Instruction, Program,
};
use crate::machine::{outcome_of, Computer, Outcome, RunOutcome};

verus! {

/// The smallest index `i >= n` with `i < p.len()` at which `p` holds a
/// flippable instruction; `p.len()` when there is none.
pub open spec fn first_flip_index(p: Seq<Instruction>, n: int) -> int
    decreases p.len() - n,
{
    if !(0 <= n < p.len()) {
        p.len() as int
    } else if is_flippable(p[n]) {
        n
    } else {
        first_flip_index(p, n + 1)
    }
}

/// What `first_flip_index` returns: an index in `[n, p.len()]`, flippable
/// when it is short of the length, with nothing flippable before it.
pub proof fn lemma_first_flip_index(p: Seq<Instruction>, n: int)
    requires
        0 <= n <= p.len(),
    ensures
        n <= first_flip_index(p, n) <= p.len(),
        first_flip_index(p, n) < p.len() ==> is_flippable(p[first_flip_index(p, n)]),
        forall|j: int| n <= j < first_flip_index(p, n) ==> !is_flippable(p[j]),
    decreases p.len() - n,
{
    if n < p.len() && !is_flippable(p[n]) {
        lemma_first_flip_index(p, n + 1);
    }
}

/// Scans `current` from index `n` upward for the first no-operation or jump
/// instruction.  Finding one at index `i`, it returns `i + 1` and a fresh
/// copy of the program with that single instruction flipped, the operand
/// kept.  Finding none, it returns the program's length and an unchanged
/// copy: the search-exhausted sentinel.  The input program is only read.
pub fn flip_after(current: &Program, n: usize) -> (r: (usize, Program))
    ensures
        r.1@.len() == current@.len(),
        first_flip_index(current@, n as int) < current@.len() ==> {
            let i = first_flip_index(current@, n as int);
            r.0 == i + 1 && r.1@ == current@.update(i, flip_instruction(current@[i]))
        },
        first_flip_index(current@, n as int) == current@.len() ==> r.0 == current@.len()
            && r.1@ == current@,
{
    let mut new_program: Vec<Instruction> = Vec::new();
    let mut k: usize = 0;
    while k < current.len()
        invariant
            k <= current@.len(),
            new_program@ == current@.subrange(0, k as int),
        decreases current@.len() - k,
    {
        new_program.push(current[k]);
        proof {
            assert(new_program@ =~= current@.subrange(0, k as int + 1));
        }
        k = k + 1;
    }
    proof {
        assert(new_program@ =~= current@);
        if n as int <= current@.len() {
            lemma_first_flip_index(current@, n as int);
        }
    }
    let mut i: usize = n;
    while i < new_program.len()
        invariant
            n <= i,
            new_program@ == current@,
            forall|j: int| n <= j < i ==> !is_flippable(current@[j]),
        decreases new_program@.len() - i,
    {
        let inst = new_program[i];
        if instruction_is_flippable(inst) {
            proof {
                lemma_first_flip_index(current@, n as int);
                assert(first_flip_index(current@, n as int) == i as int);
            }
            match inst {
                Instruction::Nop(m) => {
                    new_program.set(i, Instruction::Jmp(m));
                }
                Instruction::Jmp(m) => {
                    new_program.set(i, Instruction::Nop(m));
                }
                Instruction::Acc(_) => {}
            }
            return (i + 1, new_program);
        }
        i = i + 1;
    }
    proof {
        if n as int <= current@.len() {
            lemma_first_flip_index(current@, n as int);
        }
        assert(first_flip_index(current@, n as int) == current@.len());
    }
    (new_program.len(), new_program)
}

/// Flipping is reversible where it acts: after `flip_after` has flipped the
/// first flippable index `i` at or past `k`, scanning the result from `i`
/// finds the very same index again, and flipping it once more restores the
/// original program, instruction kind and operand included.
pub proof fn lemma_flip_round_trip(p: Seq<Instruction>, k: int)
    requires
        0 <= k,
        first_flip_index(p, k) < p.len(),
    ensures
        ({
            let i = first_flip_index(p, k);
            let q = p.update(i, flip_instruction(p[i]));
            first_flip_index(q, i) == i && q.update(i, flip_instruction(q[i])) == p
        }),
{
    let i = first_flip_index(p, k);
    if k <= p.len() {
        lemma_first_flip_index(p, k);
    } else {
        assert(first_flip_index(p, k) == p.len());
    }
    let q = p.update(i, flip_instruction(p[i]));
    crate::instruction::lemma_flip_keeps_flippable(p[i]);
    assert(is_flippable(q[i]));
    assert(first_flip_index(q, i) == i);
    crate::instruction::lemma_flip_involution(p[i]);
    assert(q.update(i, flip_instruction(q[i])) =~= p);
}

/// The candidate the repair search derives from `p` by flipping index `i`.
pub open spec fn candidate_at(p: Seq<Instruction>, i: int) -> Seq<Instruction> {
    p.update(i, flip_instruction(p[i]))
}

/// Whether flipping index `i` of `p` repairs it: the index holds a
/// flippable instruction and the flipped candidate halts cleanly.
pub open spec fn repairs(p: Seq<Instruction>, i: int) -> bool {
    &&& 0 <= i < p.len()
    &&& is_flippable(p[i])
    &&& outcome_of(candidate_at(p, i)) is Halted
}

/// Whether `i` is the lowest repairing index of `p`.
pub open spec fn is_first_repair(p: Seq<Instruction>, i: int) -> bool {
    &&& repairs(p, i)
    &&& forall|j: int| 0 <= j < i ==> !repairs(p, j)
}

/// Searches for the single flip that makes `program` halt cleanly.
/// Candidates are derived from the unchanged original, one flip each, and
/// tried in ascending index order; the accumulator of the first halting
/// candidate is returned.  `None` means the search is exhausted: no single
/// flip of `program` halts.  The caller's program is only read, never
/// changed.
pub fn find_repair(program: &Program) -> (r: Option<i64>)
    ensures
        r is None <==> forall|i: int| !repairs(program@, i),
        r matches Some(a) ==> exists|i: int|
            is_first_repair(program@, i) && outcome_of(candidate_at(program@, i))
                == Outcome::Halted(a as int),
{
    let mut computer = Computer::new();
    let mut idx: usize = 0;
    while idx < program.len()
        invariant
            idx <= program@.len(),
            forall|j: int| 0 <= j < idx ==> !repairs(program@, j),
        decreases program@.len() - idx,
    {
        if instruction_is_flippable(program[idx]) {
            proof {
                assert(first_flip_index(program@, idx as int) == idx as int);
            }
            let (_, candidate) = flip_after(program, idx);
            match computer.run(&candidate) {
                RunOutcome::Halted(a) => {
                    proof {
                        assert(repairs(program@, idx as int));
                        assert(is_first_repair(program@, idx as int));
                    }
                    return Some(a);
                }
                _ => {
                    proof {
                        assert(!(outcome_of(candidate_at(program@, idx as int)) is Halted));
                    }
                }
            }
        }
        idx = idx + 1;
    }
    None
}

} // verus!
