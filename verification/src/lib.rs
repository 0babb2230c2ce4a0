//! A small virtual machine for an eight-instruction tape language.
//!
//! A program is text; every character that is not one of the eight
//! instruction symbols is commentary. The machine owns a circular tape of
//! 30,000 byte cells, a data pointer and an instruction pointer. Loops are
//! bracket pairs whose targets are fixed by nesting alone, so they are
//! resolved once, before anything runs, and a program with an unpaired
//! bracket never starts.
//!
//! * [`instruction`] classifies characters and strips commentary.
//! * [`brackets`] defines which loop-close belongs to which loop-open.
//! * [`resolver`] computes that pairing, or the position that breaks it.
//! * [`tape`] is the circular memory.
//! * [`semantics`] is the mathematical model of a run.
//! * [`program`] is a resolved program and the dispatch of one
//!   instruction, for callers that own the byte streams themselves.
//! * [`runtime`] is the execution context with both streams in memory.
//! * [`engine`] runs programs, by jump table or by recursive descent.
//!
//! Every run has a budget of instructions. Verified code has to
//! terminate, and a program of this language need not.

pub mod brackets;
pub mod engine;
pub mod instruction;
pub mod program;
pub mod resolver;
pub mod runtime;
pub mod semantics;
pub mod tape;
