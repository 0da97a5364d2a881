//! The execution engine: a mathematical interpreter for programs and the
//! verified machine that implements it.

use vstd::prelude::*;
use vstd::set_lib::{lemma_int_range, lemma_len_subset, set_int_range};
use crate::instruction::Instruction;

verus! {

/// What a run of a program comes to.  `Halted` is the clean halt: the
/// instruction pointer reached exactly the program's length.  `Looped` is
/// loop detection: the pointer reached an index already executed in this
/// run, and the payload is the accumulator at that moment.  `Faulted` covers
/// the conditions this design treats as fatal: the pointer leaving
/// `[0, length]`, or the accumulator leaving the range of `i64`.
pub enum Outcome {
    Halted(int),
    Looped(int),
    Faulted,
}

/// Whether a mathematical integer fits in an `i64`.
pub open spec fn fits_i64(v: int) -> bool {
    i64::MIN as int <= v <= i64::MAX as int
}

/// Where the instruction pointer stands after executing `i` at `pc`.
pub open spec fn step_pc(i: Instruction, pc: int) -> int {
    match i {
        Instruction::Nop(_) => pc + 1,
        Instruction::Acc(_) => pc + 1,
        Instruction::Jmp(n) => pc + n,
    }
}

/// The accumulator after executing `i` when it held `acc`.
pub open spec fn step_acc(i: Instruction, acc: int) -> int {
    match i {
        Instruction::Acc(n) => acc + n,
        _ => acc,
    }
}

/// The outcome of running `p` from pointer `pc` with accumulator `acc`,
/// where the indices in `visited` have already been executed in this run.
/// Loop detection fires as soon as the pointer stands on a visited index,
/// and reports the accumulator of that moment.
pub open spec fn run_from(p: Seq<Instruction>, pc: int, acc: int, visited: Set<int>) -> Outcome
    decreases p.len() - visited.len()
        when visited.finite() && visited.subset_of(set_int_range(0, p.len() as int))
{
    if pc == p.len() {
        Outcome::Halted(acc)
    } else if !(0 <= pc < p.len()) {
        Outcome::Faulted
    } else if visited.contains(pc) {
        Outcome::Looped(acc)
    } else if !fits_i64(step_acc(p[pc], acc)) {
        Outcome::Faulted
    } else {
        proof {
            lemma_int_range(0, p.len() as int);
            lemma_len_subset(visited.insert(pc), set_int_range(0, p.len() as int));
        }
        run_from(p, step_pc(p[pc], pc), step_acc(p[pc], acc), visited.insert(pc))
    }
}

/// The outcome of running `p` from the start: pointer 0, accumulator 0,
/// nothing visited yet.
pub open spec fn outcome_of(p: Seq<Instruction>) -> Outcome {
    run_from(p, 0, 0, Set::empty())
}

/// The outcome as the machine reports it at runtime.
#[derive(Copy, Clone, PartialEq, Eq, Structural, Debug)]
pub enum RunOutcome {
    Halted(i64),
    Looped(i64),
    Faulted,
}

impl View for RunOutcome {
    type V = Outcome;

    open spec fn view(&self) -> Outcome {
        match *self {
            RunOutcome::Halted(a) => Outcome::Halted(a as int),
            RunOutcome::Looped(a) => Outcome::Looped(a as int),
            RunOutcome::Faulted => Outcome::Faulted,
        }
    }
}

/// The set of indices marked true in a visited table.
pub open spec fn visited_set(s: Seq<bool>) -> Set<int> {
    Set::new(|j: int| 0 <= j < s.len() && s[j])
}

/// The sum of the operands of the accumulate instructions of `p`.
pub open spec fn sum_accs(p: Seq<Instruction>) -> int
    decreases p.len(),
{
    if p.len() == 0 {
        0
    } else {
        acc_contribution(p[0]) + sum_accs(p.subrange(1, p.len() as int))
    }
}

/// What one instruction adds to the accumulator when executed.
pub open spec fn acc_contribution(i: Instruction) -> int {
    match i {
        Instruction::Acc(n) => n as int,
        _ => 0,
    }
}

/// Peeling the first instruction off a slice of the accumulate sum.
proof fn lemma_sum_accs_unfold(p: Seq<Instruction>, a: int, b: int)
    requires
        0 <= a < b <= p.len(),
    ensures
        sum_accs(p.subrange(a, b)) == acc_contribution(p[a]) + sum_accs(p.subrange(a + 1, b)),
{
    let s = p.subrange(a, b);
    assert(s[0] == p[a]);
    assert(s.subrange(1, s.len() as int) =~= p.subrange(a + 1, b));
}

/// From any pointer of a jump-free program, the run walks straight to the
/// end: it halts with the accumulator grown by the accumulate operands of
/// the instructions still ahead, provided no intermediate total leaves the
/// range of `i64`.
proof fn lemma_no_jump_run(p: Seq<Instruction>, pc: int, acc: int, visited: Set<int>)
    requires
        forall|i: int| 0 <= i < p.len() ==> !(#[trigger] p[i] is Jmp),
        0 <= pc <= p.len(),
        visited.finite(),
        visited.subset_of(set_int_range(0, p.len() as int)),
        forall|j: int| #[trigger] visited.contains(j) ==> j < pc,
        forall|k: int|
            pc <= k <= p.len() ==> fits_i64(acc + sum_accs(#[trigger] p.subrange(pc, k))),
    ensures
        run_from(p, pc, acc, visited) == Outcome::Halted(
            acc + sum_accs(p.subrange(pc, p.len() as int)),
        ),
    decreases p.len() - pc,
{
    if pc == p.len() {
        assert(sum_accs(p.subrange(pc, pc)) == 0);
    } else {
        let acc2 = step_acc(p[pc], acc);
        lemma_sum_accs_unfold(p, pc, pc + 1);
        assert(sum_accs(p.subrange(pc + 1, pc + 1)) == 0);
        assert(acc2 == acc + sum_accs(p.subrange(pc, pc + 1)));
        assert(fits_i64(acc2));
        assert forall|k: int| pc + 1 <= k <= p.len() implies fits_i64(
            acc2 + sum_accs(#[trigger] p.subrange(pc + 1, k)),
        ) by {
            lemma_sum_accs_unfold(p, pc, k);
            assert(fits_i64(acc + sum_accs(p.subrange(pc, k))));
        }
        lemma_no_jump_run(p, pc + 1, acc2, visited.insert(pc));
        lemma_sum_accs_unfold(p, pc, p.len() as int);
    }
}

/// A program without jumps can never loop: its pointer only ever moves
/// forward, so it halts cleanly, and the final accumulator is the sum of
/// all accumulate operands.  The one proviso is machine arithmetic: no
/// running total along the way may leave the range of `i64`.
pub proof fn lemma_no_jump_halts(p: Seq<Instruction>)
    requires
        forall|i: int| 0 <= i < p.len() ==> !(#[trigger] p[i] is Jmp),
        forall|k: int| 0 <= k <= p.len() ==> fits_i64(sum_accs(#[trigger] p.subrange(0, k))),
    ensures
        outcome_of(p) == Outcome::Halted(sum_accs(p)),
{
    lemma_no_jump_run(p, 0, 0, Set::empty());
    assert(p.subrange(0, p.len() as int) =~= p);
}

/// Whether `t` is the stepping trace of `p` from the entry state: it
/// starts at pointer 0 with accumulator 0, and every state but the last
/// stands on an instruction within the program, whose execution stays
/// within machine arithmetic and yields exactly the next state.
pub open spec fn is_step_trace(p: Seq<Instruction>, t: Seq<(int, int)>) -> bool {
    &&& t.len() > 0
    &&& t[0] == (0int, 0int)
    &&& forall|k: int|
        0 <= k < t.len() - 1 ==> {
            &&& 0 <= (#[trigger] t[k]).0 < p.len()
            &&& fits_i64(step_acc(p[t[k].0], t[k].1))
            &&& t[k + 1] == (step_pc(p[t[k].0], t[k].0), step_acc(p[t[k].0], t[k].1))
        }
}

/// The instruction pointers a trace has stood on.
pub open spec fn trace_pointers(t: Seq<(int, int)>) -> Set<int> {
    Set::new(|x: int| exists|k: int| 0 <= k < t.len() && (#[trigger] t[k]).0 == x)
}

/// Running `p` from the `m`-th state of its stepping trace, with the
/// earlier pointers marked visited, comes to the same outcome as the whole
/// run, as long as no pointer before state `m` was ever repeated.
proof fn lemma_trace_run(p: Seq<Instruction>, t: Seq<(int, int)>, m: int)
    requires
        is_step_trace(p, t),
        forall|j: int, k: int| 0 <= j < k < t.len() - 1 ==> t[j].0 != t[k].0,
        0 <= m <= t.len() - 1,
    ensures
        run_from(p, t[m].0, t[m].1, trace_pointers(t.take(m))) == outcome_of(p),
    decreases m,
{
    lemma_int_range(0, p.len() as int);
    if m == 0 {
        assert(trace_pointers(t.take(0)) =~= Set::<int>::empty());
    } else {
        lemma_trace_run(p, t, m - 1);
        let before = trace_pointers(t.take(m - 1));
        assert forall|x: int| before.contains(x) implies set_int_range(
            0,
            p.len() as int,
        ).contains(x) by {
            let k = choose|k: int| 0 <= k < t.take(m - 1).len() && (#[trigger] t.take(m - 1)[k]).0
                == x;
            assert(t[k].0 == x);
        }
        lemma_len_subset(before, set_int_range(0, p.len() as int));
        assert(!before.contains(t[m - 1].0)) by {
            if before.contains(t[m - 1].0) {
                let k = choose|k: int|
                    0 <= k < t.take(m - 1).len() && (#[trigger] t.take(m - 1)[k]).0 == t[m - 1].0;
                assert(t[k].0 == t[m - 1].0);
            }
        }
        assert(trace_pointers(t.take(m)) =~= before.insert(t[m - 1].0)) by {
            assert forall|x: int|
                trace_pointers(t.take(m)).contains(x) == before.insert(t[m - 1].0).contains(
                    x,
                ) by {
                    if trace_pointers(t.take(m)).contains(x) {
                        let k = choose|k: int|
                            0 <= k < t.take(m).len() && (#[trigger] t.take(m)[k]).0 == x;
                        if k < m - 1 {
                            assert(t.take(m - 1)[k].0 == x);
                        }
                    }
                    if before.contains(x) {
                        let k = choose|k: int|
                            0 <= k < t.take(m - 1).len() && (#[trigger] t.take(m - 1)[k]).0 == x;
                        assert(t.take(m)[k].0 == x);
                    }
                    if x == t[m - 1].0 {
                        assert(t.take(m)[m - 1].0 == x);
                    }
                }
        }
        assert(run_from(p, t[m - 1].0, t[m - 1].1, before) == run_from(
            p,
            t[m].0,
            t[m].1,
            before.insert(t[m - 1].0),
        ));
    }
}

/// Loop detection fires at the first index revisited, and reports the
/// running total accumulated up to — but not including — the second visit:
/// if a stepping trace of `p` stands on pairwise distinct indices until its
/// final state returns to one of them, the run of `p` is loop-detected
/// with exactly the final state's accumulator.
pub proof fn lemma_loop_detected_at_first_revisit(p: Seq<Instruction>, t: Seq<(int, int)>)
    requires
        is_step_trace(p, t),
        forall|j: int, k: int| 0 <= j < k < t.len() - 1 ==> t[j].0 != t[k].0,
        exists|j: int| 0 <= j < t.len() - 1 && (#[trigger] t[j]).0 == t[t.len() - 1].0,
    ensures
        outcome_of(p) == Outcome::Looped(t[t.len() - 1].1),
{
    let m = t.len() - 1;
    lemma_trace_run(p, t, m);
    let visited = trace_pointers(t.take(m));
    lemma_int_range(0, p.len() as int);
    assert forall|x: int| visited.contains(x) implies set_int_range(0, p.len() as int).contains(
        x,
    ) by {
        let k = choose|k: int| 0 <= k < t.take(m).len() && (#[trigger] t.take(m)[k]).0 == x;
        assert(t[k].0 == x);
    }
    lemma_len_subset(visited, set_int_range(0, p.len() as int));
    let j = choose|j: int| 0 <= j < t.len() - 1 && (#[trigger] t[j]).0 == t[m].0;
    assert(t.take(m)[j].0 == t[m].0);
    assert(visited.contains(t[m].0));
    assert(0 <= t[m].0 < p.len());
    assert(run_from(p, t[m].0, t[m].1, visited) == Outcome::Looped(t[m].1));
}

/// The execution engine.  It holds the pointer and the accumulator of the
/// current run; both are reset at the start of every run, so one engine can
/// be reused across many runs without carrying state over.
pub struct Computer {
    pub program_counter: usize,
    pub accumulator: i64,
}

impl Computer {
    /// A fresh engine, at the entry point with an empty accumulator.
    pub fn new() -> (c: Computer)
        ensures
            c.program_counter == 0,
            c.accumulator == 0,
    {
        Computer { program_counter: 0, accumulator: 0 }
    }

    /// Runs `program` from the start and reports the outcome, exactly as the
    /// mathematical interpreter `outcome_of` gives it.  The engine's state is
    /// reset first, so the outcome depends on the program alone.
    pub fn run(&mut self, program: &Vec<Instruction>) -> (r: RunOutcome)
        ensures
            r@ == outcome_of(program@),
    {
        self.program_counter = 0;
        self.accumulator = 0;
        let mut visited: Vec<bool> = Vec::new();
        while visited.len() < program.len()
            invariant
                visited@.len() <= program@.len(),
                forall|j: int| 0 <= j < visited@.len() ==> !visited@[j],
            decreases program@.len() - visited@.len(),
        {
            visited.push(false);
        }
        proof {
            lemma_int_range(0, program@.len() as int);
            assert(visited_set(visited@) =~= Set::empty());
        }
        while self.program_counter < program.len()
            invariant
                visited@.len() == program@.len(),
                self.program_counter <= program@.len(),
                visited_set(visited@).finite(),
                visited_set(visited@).subset_of(set_int_range(0, program@.len() as int)),
                run_from(
                    program@,
                    self.program_counter as int,
                    self.accumulator as int,
                    visited_set(visited@),
                ) == outcome_of(program@),
            decreases program@.len() - visited_set(visited@).len(),
        {
            let pc = self.program_counter;
            if visited[pc] {
                return RunOutcome::Looped(self.accumulator);
            }
            let ghost old_set = visited_set(visited@);
            visited.set(pc, true);
            proof {
                assert(visited_set(visited@) =~= old_set.insert(pc as int));
                lemma_int_range(0, program@.len() as int);
                lemma_len_subset(visited_set(visited@), set_int_range(0, program@.len() as int));
            }
            let inst = program[pc];
            match inst {
                Instruction::Nop(_) => {
                    self.program_counter = pc + 1;
                }
                Instruction::Acc(n) => {
                    let sum: i128 = self.accumulator as i128 + n as i128;
                    if sum < i64::MIN as i128 || sum > i64::MAX as i128 {
                        return RunOutcome::Faulted;
                    }
                    self.accumulator = sum as i64;
                    self.program_counter = pc + 1;
                }
                Instruction::Jmp(n) => {
                    let target: i128 = pc as i128 + n as i128;
                    if target < 0 || target > program.len() as i128 {
                        proof {
                            assert(run_from(
                                program@,
                                pc as int,
                                self.accumulator as int,
                                old_set,
                            ) == run_from(
                                program@,
                                pc as int + n as int,
                                self.accumulator as int,
                                old_set.insert(pc as int),
                            ));
                            assert(run_from(
                                program@,
                                pc as int + n as int,
                                self.accumulator as int,
                                old_set.insert(pc as int),
                            ) == Outcome::Faulted);
                        }
                        return RunOutcome::Faulted;
                    }
                    self.program_counter = target as usize;
                }
            }
        }
        RunOutcome::Halted(self.accumulator)
    }

    /// Runs `program` from the start; `Ok` carries the final accumulator of
    /// a clean halt, `Err` the accumulator at the moment an instruction
    /// index was about to be executed a second time.  The caller owes a
    /// program whose run neither leaves `[0, length]` with its pointer nor
    /// overflows the accumulator; the puzzle domain's well-formed programs
    /// satisfy this.
    pub fn execute(&mut self, program: &Vec<Instruction>) -> (r: Result<i64, i64>)
        requires
            !(outcome_of(program@) is Faulted),
        ensures
            outcome_of(program@) matches Outcome::Halted(a) ==> r == Result::<i64, i64>::Ok(
                a as i64,
            ),
            outcome_of(program@) matches Outcome::Looped(a) ==> r == Result::<i64, i64>::Err(
                a as i64,
            ),
    {
        match self.run(program) {
            RunOutcome::Halted(a) => Ok(a),
            RunOutcome::Looped(a) => Err(a),
            RunOutcome::Faulted => vstd::pervasive::unreached(),
        }
    }
}

} // verus!
