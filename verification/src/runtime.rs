//! The execution context of one run: the tape, the two byte streams held
//! in memory, and the step budget.

use vstd::prelude::*;
use crate::semantics::{after_read, initial_state, next_byte, State};
use crate::tape::Tape;

verus! {

/// Everything a run mutates, owned by the caller.
pub struct Runtime {
    /// The tape and the data pointer.
    pub tape: Tape,
    /// The bytes of the input stream.
    pub input: Vec<u8>,
    /// How many bytes of `input` have been read.
    pub consumed: usize,
    /// The bytes written to the output stream.
    pub output: Vec<u8>,
    /// How many instructions may still be dispatched.
    pub budget: u64,
}

impl Runtime {
    /// The context is in a state that its own operations can produce.
    pub open spec fn wf(&self) -> bool {
        &&& self.tape.wf()
        &&& self.consumed <= self.input@.len()
    }

    /// The state of the run when the instruction pointer is `ip`.
    pub open spec fn state(&self, ip: int) -> State {
        State {
            ip,
            tape: self.tape@,
            input: self.input@.skip(self.consumed as int),
            output: self.output@,
            budget: self.budget as nat,
        }
    }

    /// A fresh context: a blank tape, `input` waiting to be read, nothing
    /// written, and `budget` instructions to go.
    pub fn new(input: Vec<u8>, budget: u64) -> (runtime: Runtime)
        ensures
            runtime.wf(),
            runtime.state(0) == initial_state(input@, budget as nat),
    {
        let runtime = Runtime { tape: Tape::new(), input, consumed: 0, output: Vec::new(), budget };
        assert(runtime.input@.skip(0) =~= input@);
        runtime
    }

    /// Reads one byte from the input stream: the next byte, or zero once
    /// the stream has ended.
    pub fn read(&mut self) -> (byte: u8)
        requires
            old(self).wf(),
        ensures
            final(self).wf(),
            byte == next_byte(old(self).state(0).input),
            final(self).state(0) == (State {
                input: after_read(old(self).state(0).input),
                ..old(self).state(0)
            }),
    {
        if self.consumed < self.input.len() {
            let byte = self.input[self.consumed];
            self.consumed += 1;
            assert(self.input@.skip(self.consumed as int) =~= old(self).input@.skip(
                old(self).consumed as int,
            ).drop_first());
            byte
        } else {
            0
        }
    }

    /// Writes one byte to the output stream.
    pub fn write(&mut self, byte: u8)
        requires
            old(self).wf(),
        ensures
            final(self).wf(),
            final(self).state(0) == (State {
                output: old(self).state(0).output.push(byte),
                ..old(self).state(0)
            }),
    {
        self.output.push(byte);
    }
}

} // verus!
