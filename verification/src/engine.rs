//! The execution engines.
//!
//! [`run_flat`] walks the whole program with the jump table. [`execute`]
//! descends recursively into loop bodies and needs no table. Both stop
//! when the program ends or the budget is spent, and on a balanced
//! program both stop in the same state. [`interpret`] takes program text
//! through sanitizer, resolver and the flat engine.

use vstd::pervasive::unreached;
use vstd::prelude::*;
use vstd::slice::slice_subrange;
use crate::brackets::{
    balanced, find_close, first_unmatched_close, lemma_close_matches_back, lemma_find_close_bounds,
    lemma_find_close_deeper, lemma_find_close_resumes, lemma_find_close_skip,
    lemma_find_close_take, lemma_find_open_skip, lemma_find_open_take,
    lemma_first_unmatched_close, lemma_inner_loop_closes_first, lemma_inner_loop_opens_last,
    matching_close, matching_open, offending_position,
};
use crate::instruction::{sanitized, Instruction};
use crate::program::Program;
use crate::resolver::{skip_loop, UnbalancedLoop};
use crate::runtime::Runtime;
use crate::semantics::{
    body, embeds, halted, initial_state, lemma_run_embedded, run, run_body, runnable, shifted,
    step, Effect,
};

verus! {

/// Runs `program` from its first instruction on `runtime`, resolving
/// loops through the jump table, until the program ends or the budget is
/// spent. Returns the instruction pointer at which the run stopped.
pub fn run_flat(program: &Program, runtime: &mut Runtime) -> (end: usize)
    requires
        program.wf(),
        old(runtime).wf(),
    ensures
        final(runtime).wf(),
        final(runtime).state(end as int) == run(program@, old(runtime).state(0)),
{
    let mut ip: usize = 0;
    while ip < program.len() && runtime.budget > 0
        invariant
            program.wf(),
            runtime.wf(),
            ip <= program@.len(),
            run(program@, runtime.state(ip as int)) == run(program@, old(runtime).state(0)),
        decreases runtime.budget,
    {
        let (next, effect) = program.step(ip, &mut runtime.tape);
        match effect {
            Effect::Internal => {},
            Effect::Write(byte) => {
                runtime.write(byte);
            },
            Effect::Read => {
                let byte = runtime.read();
                runtime.tape.store(byte);
            },
        }
        runtime.budget -= 1;
        ip = next;
    }
    ip
}

/// The slice that runs as a loop body is a prefix of the slice.
proof fn lemma_body_is_prefix(program: Seq<Instruction>)
    ensures
        body(program).len() <= program.len(),
        body(program) =~= program.take(body(program).len() as int),
        first_unmatched_close(program) < program.len() ==> body(program).len()
            == first_unmatched_close(program) + 1,
        first_unmatched_close(program) >= program.len() ==> body(program) == program,
{
    lemma_find_close_bounds(program, 0, 0);
}

/// Where a loop-open stands at the top level of a loop body, the body of
/// its own loop is a window of the enclosing body, one past the loop-open
/// and up to its loop-close, and the scan of the enclosing body resumes
/// after that loop-close.
proof fn lemma_loop_body_embeds(program: Seq<Instruction>, open: int)
    requires
        runnable(program),
        0 <= open < program.len(),
        program[open] == Instruction::LoopOpen,
        first_unmatched_close(program) == find_close(program, open, 0),
    ensures
        runnable(program.skip(open + 1)),
        open < matching_close(program, open) < body(program).len(),
        matching_close(body(program), open) == matching_close(program, open),
        matching_close(program.skip(open), 0) == matching_close(program, open) - open,
        body(program.skip(open + 1)).len() == matching_close(program, open) - open,
        embeds(body(program), body(program.skip(open + 1)), open + 1),
        find_close(program, matching_close(program, open) + 1, 0) == first_unmatched_close(
            program,
        ),
{
    let outer = body(program);
    let rest = program.skip(open + 1);
    let inner = body(rest);
    let close = matching_close(program, open);
    lemma_body_is_prefix(program);
    lemma_body_is_prefix(rest);
    lemma_find_close_bounds(program, open + 1, 0);
    lemma_find_close_deeper(program, open + 1, 0);
    lemma_find_close_resumes(program, open + 1, 0);
    lemma_find_close_skip(program, open + 1, 0, 0);
    lemma_find_close_skip(program, open, 1, 0);
    lemma_find_close_take(program, outer.len() as int, open + 1, 0);
    lemma_close_matches_back(program, open);
    assert forall|i: int| 0 <= i < rest.len() implies #[trigger] rest[i]
        != Instruction::Invalid by {
        assert(rest[i] == program[i + open + 1]);
    }
    assert forall|i: int|
        0 <= i < rest.len() && #[trigger] rest[i] == Instruction::LoopOpen implies matching_close(
        rest,
        i,
    ) < rest.len() by {
        assert(rest[i] == program[i + open + 1]);
        lemma_find_close_skip(program, open + 1, i + 1, 0);
    }
    assert forall|i: int| 0 <= i < inner.len() implies #[trigger] inner[i] == outer[open + 1
        + i] by {
        assert(inner[i] == rest[i]);
        assert(rest[i] == program[i + open + 1]);
    }
    assert forall|i: int|
        0 <= i < inner.len() && #[trigger] inner[i] == Instruction::LoopOpen implies {
        &&& matching_close(inner, i) < inner.len()
        &&& matching_close(outer, open + 1 + i) == open + 1 + matching_close(inner, i)
    } by {
        assert(inner[i] == rest[i]);
        lemma_inner_loop_closes_first(rest, 0, 0, i);
        lemma_find_close_take(rest, inner.len() as int, i + 1, 0);
        lemma_find_close_skip(program, open + 1, i + 1, 0);
        lemma_find_close_take(program, outer.len() as int, open + 2 + i, 0);
    }
    assert forall|i: int|
        0 <= i < inner.len() && #[trigger] inner[i] == Instruction::LoopClose implies matching_open(
        outer,
        open + 1 + i,
    ) == open + 1 + matching_open(inner, i) by {
        assert(inner[i] == rest[i]);
        assert(rest[i] == program[i + open + 1]);
        lemma_find_open_take(rest, inner.len() as int, i - 1, 0);
        lemma_find_open_take(program, outer.len() as int, open + i, 0);
        if i == inner.len() - 1 {
            lemma_first_unmatched_close(rest);
        } else {
            lemma_inner_loop_opens_last(program, close - 1, 0, open + 1 + i);
            lemma_find_open_skip(program, open + 1, i - 1, 0);
        }
    }
}

/// Runs `instructions` as a loop body on `runtime` by recursive descent,
/// until the body ends or the budget is spent, and returns how many
/// instructions of the slice the run has passed.
///
/// A loop-open on a non-zero cell descends into the rest of the slice; a
/// loop-open on a zero cell skips its loop by a bracket count. A
/// loop-close met at this level belongs to the loop-open just before the
/// slice: on a non-zero cell it starts the slice again, on a zero cell it
/// ends the run one past itself. A balanced program has no such
/// loop-close and runs to its end.
pub fn execute(instructions: &[Instruction], runtime: &mut Runtime) -> (end: usize)
    requires
        runnable(instructions@),
        old(runtime).wf(),
    ensures
        final(runtime).wf(),
        final(runtime).state(end as int) == run_body(instructions@, old(runtime).state(0)),
        end <= body(instructions@).len(),
        final(runtime).budget > 0 ==> end == body(instructions@).len(),
    decreases instructions@.len(),
{
    let ghost program = instructions@;
    let len = instructions.len();
    let mut ip: usize = 0;
    proof {
        lemma_body_is_prefix(program);
    }
    while ip < len && runtime.budget > 0
        invariant
            program == instructions@,
            len == program.len(),
            runnable(program),
            runtime.wf(),
            ip <= body(program).len() <= len,
            runtime.budget > 0 ==> first_unmatched_close(program) == find_close(
                program,
                ip as int,
                0,
            ),
            run_body(program, runtime.state(ip as int)) == run_body(
                program,
                old(runtime).state(0),
            ),
        decreases runtime.budget,
    {
        let ghost before = runtime.state(ip as int);
        proof {
            lemma_body_is_prefix(program);
            lemma_find_close_bounds(program, ip as int, 0);
            assert(ip < body(program).len());
            assert(body(program)[ip as int] == program[ip as int]);
            assert(run_body(program, before) == run_body(program, step(body(program), before)));
        }
        runtime.budget -= 1;
        match instructions[ip] {
            Instruction::Right => {
                runtime.tape.move_right();
                ip += 1;
            },
            Instruction::Left => {
                runtime.tape.move_left();
                ip += 1;
            },
            Instruction::Increment => {
                runtime.tape.increment();
                ip += 1;
            },
            Instruction::Decrement => {
                runtime.tape.decrement();
                ip += 1;
            },
            Instruction::Output => {
                let byte = runtime.tape.current();
                runtime.write(byte);
                ip += 1;
            },
            Instruction::Input => {
                let byte = runtime.read();
                runtime.tape.store(byte);
                ip += 1;
            },
            Instruction::LoopOpen => {
                proof {
                    lemma_loop_body_embeds(program, ip as int);
                }
                if runtime.tape.current() == 0 {
                    let span = skip_loop(slice_subrange(instructions, ip, len)).unwrap();
                    ip += span;
                } else {
                    let ghost entered = runtime.state(0);
                    let advanced = execute(slice_subrange(instructions, ip + 1, len), runtime);
                    proof {
                        lemma_run_embedded(
                            body(program),
                            body(program.skip(ip + 1)),
                            ip + 1,
                            entered,
                        );
                        assert(shifted(entered, ip + 1) == step(body(program), before));
                        assert(shifted(runtime.state(advanced as int), ip + 1) == runtime.state(
                            ip + 1 + advanced,
                        ));
                    }
                    ip += advanced + 1;
                }
            },
            Instruction::LoopClose => {
                proof {
                    lemma_first_unmatched_close(program);
                    lemma_find_open_take(program, body(program).len() as int, ip - 1, 0);
                }
                if runtime.tape.current() != 0 {
                    ip = 0;
                } else {
                    return ip + 1;
                }
            },
            Instruction::Invalid => {
                unreached::<()>();
            },
        }
    }
    ip
}

/// How a run of program text ended.
pub struct Outcome {
    /// The execution context as the run left it.
    pub runtime: Runtime,
    /// The instruction pointer at which the run stopped.
    pub instruction_pointer: usize,
    /// Whether the program ran to its end, rather than out of budget.
    pub halted: bool,
}

/// Sanitizes, resolves and runs program text on a blank tape with `input`
/// as its input stream, for at most `budget` instructions. Text whose
/// brackets are unbalanced is rejected before anything runs.
pub fn interpret(source: &str, input: Vec<u8>, budget: u64) -> (result: Result<
    Outcome,
    UnbalancedLoop,
>)
    ensures
        match result {
            Ok(outcome) => {
                &&& balanced(sanitized(source@))
                &&& outcome.runtime.wf()
                &&& outcome.runtime.state(outcome.instruction_pointer as int) == run(
                    sanitized(source@),
                    initial_state(input@, budget as nat),
                )
                &&& outcome.halted == halted(
                    sanitized(source@),
                    outcome.runtime.state(outcome.instruction_pointer as int),
                )
            },
            Err(error) => {
                &&& !balanced(sanitized(source@))
                &&& error.position == offending_position(sanitized(source@))
            },
        },
{
    match Program::parse(source) {
        Ok(program) => {
            let mut runtime = Runtime::new(input, budget);
            let instruction_pointer = run_flat(&program, &mut runtime);
            let halted = instruction_pointer >= program.len();
            Ok(Outcome { runtime, instruction_pointer, halted })
        },
        Err(error) => Err(error),
    }
}

} // verus!
