//! What a program means: a transition system over the tape, the two byte
//! streams, the instruction pointer and a step budget.
//!
//! The engines are specified against [`run`]. Input is modelled as the
//! sequence of bytes still to come; once it is empty every read yields
//! zero. Output is the sequence of bytes written so far.

use vstd::prelude::*;
use crate::brackets::{
    balanced, find_open, first_unmatched_close, lemma_find_close_bounds, lemma_find_open_bounds,
    lemma_scan_back_from_close, matching_close, matching_open, opens_matched,
};
use crate::instruction::Instruction;
use crate::tape::TapeView;

verus! {

/// What dispatching one instruction asks of the outside world.
#[derive(Clone, Copy, Debug, PartialEq, Eq, Structural)]
pub enum Effect {
    /// Nothing: the instruction only touched the machine.
    Internal,
    /// The byte is to be written to the output stream.
    Write(u8),
    /// One byte is to be read from the input stream and stored in the
    /// current cell.
    Read,
}

/// The outcome of dispatching one instruction, streams aside.
pub struct Dispatch {
    pub ip: int,
    pub tape: TapeView,
    pub effect: Effect,
}

/// The whole state of a run.
pub struct State {
    /// The instruction pointer.
    pub ip: int,
    /// The tape and the data pointer.
    pub tape: TapeView,
    /// The input bytes not yet read.
    pub input: Seq<u8>,
    /// The output bytes written so far.
    pub output: Seq<u8>,
    /// How many instructions may still be dispatched.
    pub budget: nat,
}

/// The state in which every run begins: instruction pointer zero, a blank
/// tape, nothing written yet.
pub open spec fn initial_state(input: Seq<u8>, budget: nat) -> State {
    State { ip: 0, tape: TapeView::blank(), input, output: Seq::empty(), budget }
}

/// Dispatches the instruction at `ip`: the new instruction pointer, the
/// new tape, and what the streams have to do. A read leaves the cell for
/// the stream to fill. `Invalid` is no instruction and never part of a
/// program that runs; the model passes over it.
pub open spec fn dispatch(program: Seq<Instruction>, ip: int, tape: TapeView) -> Dispatch {
    match program[ip] {
        Instruction::Right => Dispatch { ip: ip + 1, tape: tape.right(), effect: Effect::Internal },
        Instruction::Left => Dispatch { ip: ip + 1, tape: tape.left(), effect: Effect::Internal },
        Instruction::Increment => Dispatch {
            ip: ip + 1,
            tape: tape.incremented(),
            effect: Effect::Internal,
        },
        Instruction::Decrement => Dispatch {
            ip: ip + 1,
            tape: tape.decremented(),
            effect: Effect::Internal,
        },
        Instruction::Output => Dispatch {
            ip: ip + 1,
            tape,
            effect: Effect::Write(tape.current()),
        },
        Instruction::Input => Dispatch { ip: ip + 1, tape, effect: Effect::Read },
        Instruction::LoopOpen => Dispatch {
            ip: if tape.current() == 0 {
                matching_close(program, ip) + 1
            } else {
                ip + 1
            },
            tape,
            effect: Effect::Internal,
        },
        Instruction::LoopClose => Dispatch {
            ip: if tape.current() != 0 {
                matching_open(program, ip) + 1
            } else {
                ip + 1
            },
            tape,
            effect: Effect::Internal,
        },
        Instruction::Invalid => Dispatch { ip: ip + 1, tape, effect: Effect::Internal },
    }
}

/// The byte that a read delivers: the next input byte, or zero once the
/// stream has ended.
pub open spec fn next_byte(input: Seq<u8>) -> u8 {
    if input.len() > 0 {
        input[0]
    } else {
        0
    }
}

/// The input that is left after a read.
pub open spec fn after_read(input: Seq<u8>) -> Seq<u8> {
    if input.len() > 0 {
        input.drop_first()
    } else {
        input
    }
}

/// One transition: dispatches the instruction under the instruction
/// pointer, lets the streams do their part, and spends one unit of the
/// budget.
pub open spec fn step(program: Seq<Instruction>, state: State) -> State {
    let dispatched = dispatch(program, state.ip, state.tape);
    let budget = (state.budget - 1) as nat;
    match dispatched.effect {
        Effect::Internal => State { ip: dispatched.ip, tape: dispatched.tape, budget, ..state },
        Effect::Write(byte) => State {
            ip: dispatched.ip,
            tape: dispatched.tape,
            output: state.output.push(byte),
            budget,
            ..state
        },
        Effect::Read => State {
            ip: dispatched.ip,
            tape: dispatched.tape.stored(next_byte(state.input)),
            input: after_read(state.input),
            budget,
            ..state
        },
    }
}

/// The instruction pointer has left the program.
pub open spec fn halted(program: Seq<Instruction>, state: State) -> bool {
    state.ip < 0 || state.ip >= program.len()
}

/// The state in which the run stops: the first state that is halted or
/// has no budget left.
pub open spec fn run(program: Seq<Instruction>, state: State) -> State
    decreases state.budget,
{
    if state.budget == 0 || halted(program, state) {
        state
    } else {
        run(program, step(program, state))
    }
}

/// The part of a slice that runs when the slice is taken as a loop body:
/// everything up to and including the first loop-close that has no
/// loop-open in the slice. That loop-close ends the enclosing loop, whose
/// loop-open stands just before the slice.
pub open spec fn body(program: Seq<Instruction>) -> Seq<Instruction> {
    if first_unmatched_close(program) < program.len() {
        program.take(first_unmatched_close(program) + 1)
    } else {
        program
    }
}

/// The state in which the run of a slice as a loop body stops.
pub open spec fn run_body(program: Seq<Instruction>, state: State) -> State {
    run(body(program), state)
}

/// The state with its instruction pointer moved by `offset`.
pub open spec fn shifted(state: State, offset: int) -> State {
    State { ip: state.ip + offset, ..state }
}

/// A program that is fit to run: sanitized, and every loop-open closed.
pub open spec fn runnable(program: Seq<Instruction>) -> bool {
    &&& forall|i: int| 0 <= i < program.len() ==> #[trigger] program[i] != Instruction::Invalid
    &&& opens_matched(program)
}

/// `inner` is a window of `outer` that begins at `offset`, and the two
/// agree, up to the offset, on where every bracket in the window jumps. A
/// loop-close without a loop-open in `inner` belongs to a loop-open just
/// before the window.
pub open spec fn embeds(outer: Seq<Instruction>, inner: Seq<Instruction>, offset: int) -> bool {
    &&& 0 <= offset
    &&& offset + inner.len() <= outer.len()
    &&& forall|i: int| 0 <= i < inner.len() ==> #[trigger] inner[i] == outer[offset + i]
    &&& forall|i: int|
        0 <= i < inner.len() && #[trigger] inner[i] == Instruction::LoopOpen ==> {
            &&& matching_close(inner, i) < inner.len()
            &&& matching_close(outer, offset + i) == offset + matching_close(inner, i)
        }
    &&& forall|i: int|
        0 <= i < inner.len() && #[trigger] inner[i] == Instruction::LoopClose ==> matching_open(
            outer,
            offset + i,
        ) == offset + matching_open(inner, i)
}

/// One step inside an embedded window is the same step in the outer
/// program, and it does not leave the window by more than its end.
pub proof fn lemma_step_embedded(
    outer: Seq<Instruction>,
    inner: Seq<Instruction>,
    offset: int,
    state: State,
)
    requires
        embeds(outer, inner, offset),
        0 <= state.ip < inner.len(),
    ensures
        step(outer, shifted(state, offset)) == shifted(step(inner, state), offset),
        0 <= step(inner, state).ip <= inner.len(),
{
    let ip = state.ip;
    assert(inner[ip] == outer[offset + ip]);
    if inner[ip] == Instruction::LoopClose {
        lemma_find_open_bounds(inner, ip - 1, 0);
    } else if inner[ip] == Instruction::LoopOpen {
        lemma_find_close_bounds(inner, ip + 1, 0);
    }
}

/// A run inside an embedded window is part of the run of the outer
/// program: going on in the outer program from where the inner run
/// stopped leads where the outer run leads anyway.
pub proof fn lemma_run_embedded(
    outer: Seq<Instruction>,
    inner: Seq<Instruction>,
    offset: int,
    state: State,
)
    requires
        embeds(outer, inner, offset),
        0 <= state.ip <= inner.len(),
    ensures
        run(outer, shifted(run(inner, state), offset)) == run(outer, shifted(state, offset)),
        0 <= run(inner, state).ip <= inner.len(),
        run(inner, state).budget > 0 ==> run(inner, state).ip == inner.len(),
        run(inner, state).budget <= state.budget,
    decreases state.budget,
{
    if state.budget > 0 && !halted(inner, state) {
        lemma_step_embedded(outer, inner, offset, state);
        lemma_run_embedded(outer, inner, offset, step(inner, state));
    }
}

/// A balanced program has no loop-close without a loop-open, so as a loop
/// body it runs whole.
pub proof fn lemma_balanced_body(program: Seq<Instruction>)
    requires
        balanced(program),
    ensures
        first_unmatched_close(program) == program.len(),
        body(program) == program,
{
    lemma_find_close_bounds(program, 0, 0);
    if first_unmatched_close(program) < program.len() {
        lemma_scan_back_from_close(program, 0, 0);
        assert(find_open(program, -1, 0) == -1);
        assert(program[first_unmatched_close(program)] == Instruction::LoopClose);
    }
}

/// The two execution strategies agree: on a balanced program, running it
/// as a loop body by recursive descent stops in the same state, with the
/// same tape, the same output and the same input left, as running it flat
/// with the jump table.
pub proof fn lemma_strategies_agree(program: Seq<Instruction>, state: State)
    requires
        balanced(program),
    ensures
        run_body(program, state) == run(program, state),
{
    lemma_balanced_body(program);
}

} // verus!
