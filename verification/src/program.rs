//! A program that has passed the sanitizer and the resolver, and the
//! dispatch of its instructions through the jump table.

use vstd::pervasive::unreached;
use vstd::prelude::*;
use crate::brackets::{
    balanced, lemma_close_matches_back, lemma_open_matches_forth, offending_position,
};
use crate::instruction::{sanitized, tokenize, Instruction};
use crate::resolver::{resolve, JumpTable, UnbalancedLoop};
use crate::semantics::{dispatch, Dispatch, Effect};
use crate::tape::Tape;

verus! {

/// A sanitized program together with its resolved loops.
#[derive(Debug)]
pub struct Program {
    /// The instructions, none of them `Invalid`.
    pub instructions: Vec<Instruction>,
    /// The loop correspondence of `instructions`.
    pub jumps: JumpTable,
}

impl View for Program {
    type V = Seq<Instruction>;

    open spec fn view(&self) -> Seq<Instruction> {
        self.instructions@
    }
}

/// Sanitized text holds no `Invalid`.
pub proof fn lemma_sanitized_is_clean(source: Seq<char>)
    ensures
        forall|i: int|
            0 <= i < sanitized(source).len() ==> #[trigger] sanitized(source)[i]
                != Instruction::Invalid,
{
    broadcast use Seq::lemma_filter_pred;
}

impl Program {
    /// The program is sanitized and balanced, and the table is its own.
    pub open spec fn wf(&self) -> bool {
        &&& forall|i: int| 0 <= i < self@.len() ==> #[trigger] self@[i] != Instruction::Invalid
        &&& balanced(self@)
        &&& self.jumps.resolves(self@)
    }

    /// Sanitizes and resolves program text. The text is accepted exactly
    /// if the brackets among its instructions are balanced; otherwise the
    /// error names the offending position, counted in instructions.
    pub fn parse(source: &str) -> (result: Result<Program, UnbalancedLoop>)
        ensures
            match result {
                Ok(program) => program.wf() && program@ == sanitized(source@),
                Err(error) => {
                    &&& !balanced(sanitized(source@))
                    &&& error.position == offending_position(sanitized(source@))
                },
            },
    {
        let instructions = tokenize(source);
        proof {
            lemma_sanitized_is_clean(source@);
        }
        match resolve(instructions.as_slice()) {
            Ok(jumps) => Ok(Program { instructions, jumps }),
            Err(error) => Err(error),
        }
    }

    /// The number of instructions.
    pub fn len(&self) -> (len: usize)
        ensures
            len == self@.len(),
    {
        self.instructions.len()
    }

    /// Dispatches the instruction at `ip` on `tape` and returns the next
    /// instruction pointer and what the streams have to do. After
    /// `Effect::Read` the caller stores the byte it read in the current
    /// cell.
    pub fn step(&self, ip: usize, tape: &mut Tape) -> (next: (usize, Effect))
        requires
            self.wf(),
            ip < self@.len(),
            old(tape).wf(),
        ensures
            final(tape).wf(),
            next.0 <= self@.len(),
            (Dispatch { ip: next.0 as int, tape: final(tape)@, effect: next.1 }) == dispatch(
                self@,
                ip as int,
                old(tape)@,
            ),
    {
        // The length of a vector fits in `usize`, so `ip + 1` does too.
        assert(self.instructions.len() == self@.len());
        let following = ip + 1;
        match self.instructions[ip] {
            Instruction::Right => {
                tape.move_right();
                (following, Effect::Internal)
            },
            Instruction::Left => {
                tape.move_left();
                (following, Effect::Internal)
            },
            Instruction::Increment => {
                tape.increment();
                (following, Effect::Internal)
            },
            Instruction::Decrement => {
                tape.decrement();
                (following, Effect::Internal)
            },
            Instruction::Output => (following, Effect::Write(tape.current())),
            Instruction::Input => (following, Effect::Read),
            Instruction::LoopOpen => {
                if tape.current() == 0 {
                    proof {
                        lemma_close_matches_back(self@, ip as int);
                    }
                    let close = self.jumps.close_of[ip].unwrap();
                    (close + 1, Effect::Internal)
                } else {
                    (following, Effect::Internal)
                }
            },
            Instruction::LoopClose => {
                if tape.current() != 0 {
                    proof {
                        lemma_open_matches_forth(self@, ip as int);
                    }
                    let open = self.jumps.open_of[ip].unwrap();
                    (open + 1, Effect::Internal)
                } else {
                    (following, Effect::Internal)
                }
            },
            Instruction::Invalid => unreached(),
        }
    }
}

} // verus!
