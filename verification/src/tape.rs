//! The circular tape of byte cells and its data pointer.

use vstd::prelude::*;

verus! {

/// The number of cells on the tape.
pub const TAPE_LEN: usize = 30_000;

/// The mathematical tape: the cell values and the data pointer.
pub struct TapeView {
    pub cells: Seq<u8>,
    pub pointer: int,
}

impl TapeView {
    /// The tape has its full length and the pointer names one of its
    /// cells.
    pub open spec fn wf(self) -> bool {
        &&& self.cells.len() == TAPE_LEN
        &&& 0 <= self.pointer < TAPE_LEN
    }

    /// The tape before anything ran: every cell zero, the pointer on the
    /// first cell.
    pub open spec fn blank() -> TapeView {
        TapeView { cells: Seq::new(TAPE_LEN as nat, |i: int| 0u8), pointer: 0 }
    }

    /// The value of the cell under the pointer.
    pub open spec fn current(self) -> u8 {
        self.cells[self.pointer]
    }

    /// The tape with the pointer one cell further right; past the last
    /// cell comes the first.
    pub open spec fn right(self) -> TapeView {
        TapeView { pointer: (self.pointer + 1) % (TAPE_LEN as int), ..self }
    }

    /// The tape with the pointer one cell further left; before the first
    /// cell comes the last.
    pub open spec fn left(self) -> TapeView {
        TapeView { pointer: (self.pointer - 1) % (TAPE_LEN as int), ..self }
    }

    /// The tape with `byte` in the cell under the pointer.
    pub open spec fn stored(self, byte: u8) -> TapeView {
        TapeView { cells: self.cells.update(self.pointer, byte), ..self }
    }

    /// The tape with the current cell one higher; after 255 comes 0.
    pub open spec fn incremented(self) -> TapeView {
        self.stored(((self.current() + 1) % 256) as u8)
    }

    /// The tape with the current cell one lower; before 0 comes 255.
    pub open spec fn decremented(self) -> TapeView {
        self.stored(((self.current() - 1) % 256) as u8)
    }

    /// The tape after `count` moves to the right.
    pub open spec fn right_by(self, count: nat) -> TapeView
        decreases count,
    {
        if count == 0 {
            self
        } else {
            self.right().right_by((count - 1) as nat)
        }
    }

    /// The tape after `count` moves to the left.
    pub open spec fn left_by(self, count: nat) -> TapeView
        decreases count,
    {
        if count == 0 {
            self
        } else {
            self.left().left_by((count - 1) as nat)
        }
    }
}

/// The tape of one run. The pointer always names a cell.
pub struct Tape {
    cells: [u8; TAPE_LEN],
    pointer: usize,
}

impl View for Tape {
    type V = TapeView;

    closed spec fn view(&self) -> TapeView {
        TapeView { cells: self.cells@, pointer: self.pointer as int }
    }
}

impl Tape {
    /// The tape is in a state that its own operations can produce.
    pub open spec fn wf(&self) -> bool {
        self@.wf()
    }

    /// A tape of zeros with the pointer on the first cell.
    pub fn new() -> (tape: Tape)
        ensures
            tape.wf(),
            tape@ == TapeView::blank(),
    {
        let tape = Tape { cells: [0u8;TAPE_LEN], pointer: 0 };
        assert(tape@.cells =~= TapeView::blank().cells);
        tape
    }

    /// The index of the cell under the pointer.
    pub fn pointer(&self) -> (pointer: usize)
        requires
            self.wf(),
        ensures
            pointer == self@.pointer,
            pointer < TAPE_LEN,
    {
        self.pointer
    }

    /// The value of the cell at `index`.
    pub fn cell(&self, index: usize) -> (value: u8)
        requires
            self.wf(),
            index < TAPE_LEN,
        ensures
            value == self@.cells[index as int],
    {
        self.cells[index]
    }

    /// The value of the cell under the pointer.
    pub fn current(&self) -> (value: u8)
        requires
            self.wf(),
        ensures
            value == self@.current(),
    {
        self.cells[self.pointer]
    }

    /// Moves the pointer one cell to the right, from the last cell to the
    /// first.
    pub fn move_right(&mut self)
        requires
            old(self).wf(),
        ensures
            final(self).wf(),
            final(self)@ == old(self)@.right(),
    {
        if self.pointer + 1 >= TAPE_LEN {
            self.pointer = 0;
        } else {
            self.pointer += 1;
        }
    }

    /// Moves the pointer one cell to the left, from the first cell to the
    /// last.
    pub fn move_left(&mut self)
        requires
            old(self).wf(),
        ensures
            final(self).wf(),
            final(self)@ == old(self)@.left(),
    {
        if self.pointer == 0 {
            self.pointer = TAPE_LEN - 1;
        } else {
            self.pointer -= 1;
        }
    }

    /// Adds one to the current cell, wrapping from 255 to 0.
    pub fn increment(&mut self)
        requires
            old(self).wf(),
        ensures
            final(self).wf(),
            final(self)@ == old(self)@.incremented(),
    {
        let value = self.cells[self.pointer];
        self.cells[self.pointer] = value.wrapping_add(1);
    }

    /// Subtracts one from the current cell, wrapping from 0 to 255.
    pub fn decrement(&mut self)
        requires
            old(self).wf(),
        ensures
            final(self).wf(),
            final(self)@ == old(self)@.decremented(),
    {
        let value = self.cells[self.pointer];
        self.cells[self.pointer] = value.wrapping_sub(1);
    }

    /// Puts `byte` into the current cell.
    pub fn store(&mut self, byte: u8)
        requires
            old(self).wf(),
        ensures
            final(self).wf(),
            final(self)@ == old(self)@.stored(byte),
    {
        self.cells[self.pointer] = byte;
    }

    /// Completes a read: puts the byte that the input stream delivered
    /// into the current cell, or zero if the stream had ended or failed.
    pub fn accept(&mut self, delivered: Option<u8>)
        requires
            old(self).wf(),
        ensures
            final(self).wf(),
            final(self)@ == old(self)@.stored(
                match delivered {
                    Some(byte) => byte,
                    None => 0,
                },
            ),
    {
        match delivered {
            Some(byte) => self.store(byte),
            None => self.store(0),
        }
    }
}

/// Incrementing and then decrementing a cell, or the reverse, leaves the
/// tape as it was, whatever the cell held.
pub proof fn lemma_increment_decrement_cancel(tape: TapeView)
    requires
        tape.wf(),
    ensures
        tape.incremented().decremented() == tape,
        tape.decremented().incremented() == tape,
{
    assert(tape.incremented().decremented().cells =~= tape.cells);
    assert(tape.decremented().incremented().cells =~= tape.cells);
}

/// Moving right `count` times adds `count` to the pointer around the
/// circle and touches no cell.
pub proof fn lemma_right_by(tape: TapeView, count: nat)
    requires
        tape.wf(),
    ensures
        tape.right_by(count) == (TapeView {
            pointer: (tape.pointer + count) % (TAPE_LEN as int),
            ..tape
        }),
    decreases count,
{
    if count > 0 {
        lemma_right_by(tape.right(), (count - 1) as nat);
        assert(((tape.pointer + 1) % 30000 + (count - 1)) % 30000 == (tape.pointer + count)
            % 30000) by {
            vstd::arithmetic::div_mod::lemma_add_mod_noop(tape.pointer + 1, count - 1, 30000);
            vstd::arithmetic::div_mod::lemma_add_mod_noop(
                (tape.pointer + 1) % 30000,
                count - 1,
                30000,
            );
            vstd::arithmetic::div_mod::lemma_mod_twice(tape.pointer + 1, 30000);
        }
    }
}

/// Moving left `count` times subtracts `count` from the pointer around
/// the circle and touches no cell.
pub proof fn lemma_left_by(tape: TapeView, count: nat)
    requires
        tape.wf(),
    ensures
        tape.left_by(count) == (TapeView {
            pointer: (tape.pointer - count) % (TAPE_LEN as int),
            ..tape
        }),
    decreases count,
{
    if count > 0 {
        lemma_left_by(tape.left(), (count - 1) as nat);
        assert(((tape.pointer - 1) % 30000 - (count - 1)) % 30000 == (tape.pointer - count)
            % 30000) by {
            vstd::arithmetic::div_mod::lemma_sub_mod_noop(tape.pointer - 1, count - 1, 30000);
            vstd::arithmetic::div_mod::lemma_sub_mod_noop(
                (tape.pointer - 1) % 30000,
                count - 1,
                30000,
            );
            vstd::arithmetic::div_mod::lemma_mod_twice(tape.pointer - 1, 30000);
        }
    }
}

/// The tape is a circle: as many moves in one direction as the tape has
/// cells bring the pointer back to where it started.
pub proof fn lemma_full_circle(tape: TapeView)
    requires
        tape.wf(),
    ensures
        tape.right_by(TAPE_LEN as nat) == tape,
        tape.left_by(TAPE_LEN as nat) == tape,
{
    lemma_right_by(tape, TAPE_LEN as nat);
    lemma_left_by(tape, TAPE_LEN as nat);
}

} // verus!
