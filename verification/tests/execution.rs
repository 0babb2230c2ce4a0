use tapevm::engine::{execute, interpret, run_flat};
use tapevm::instruction::{tokenize, Instruction};
use tapevm::program::Program;
use tapevm::resolver::UnbalancedLoop;
use tapevm::runtime::Runtime;
use tapevm::semantics::Effect;
use tapevm::tape::Tape;

const MULTIPLY: &str = "+++++ +++++ [ > +++++ ++ < - ] > .";
const NESTED: &str = "++[>++[>++<-]<-]>>.";
const HELLO: &str = "++++++++[>++++[>++>+++>+++>+<<<<-]>+>+>->>+[<]<-]>>.>---.+++++++..+++.>>.<-.<.+++.------.--------.>>+.>++.";

fn flat(source: &str, input: &[u8], budget: u64) -> (usize, Runtime) {
    let program = Program::parse(source).unwrap();
    let mut runtime = Runtime::new(input.to_vec(), budget);
    let end = run_flat(&program, &mut runtime);
    (end, runtime)
}

fn recursive(source: &str, input: &[u8], budget: u64) -> (usize, Runtime) {
    let program = Program::parse(source).unwrap();
    let mut runtime = Runtime::new(input.to_vec(), budget);
    let end = execute(&program.instructions, &mut runtime);
    (end, runtime)
}

fn assert_same_run(source: &str, input: &[u8], budget: u64) {
    let (flat_end, by_table) = flat(source, input, budget);
    let (recursive_end, by_descent) = recursive(source, input, budget);
    assert_eq!(flat_end, recursive_end);
    assert_eq!(by_table.output, by_descent.output);
    assert_eq!(by_table.consumed, by_descent.consumed);
    assert_eq!(by_table.budget, by_descent.budget);
    assert_eq!(by_table.tape.pointer(), by_descent.tape.pointer());
    for index in 0..64 {
        assert_eq!(by_table.tape.cell(index), by_descent.tape.cell(index));
    }
    assert_eq!(by_table.tape.cell(29_999), by_descent.tape.cell(29_999));
}

#[test]
fn multiply_emits_seventy() {
    let outcome = interpret(MULTIPLY, Vec::new(), 1_000).unwrap();
    assert!(outcome.halted);
    assert_eq!(outcome.runtime.output, vec![70]);
    assert_eq!(outcome.runtime.output, b"F".to_vec());
    assert_eq!(outcome.runtime.tape.pointer(), 1);
    assert_eq!(outcome.runtime.tape.cell(0), 0);
    assert_eq!(outcome.runtime.tape.cell(1), 70);
    assert_eq!(outcome.instruction_pointer, 24);
}

#[test]
fn multiply_emits_seventy_by_descent() {
    let (end, runtime) = recursive(MULTIPLY, &[], 1_000);
    assert_eq!(end, 24);
    assert_eq!(runtime.output, vec![70]);
    assert_eq!(runtime.tape.cell(1), 70);
}

#[test]
fn multiply_spends_one_unit_per_dispatch() {
    // 10 increments, the loop-open on entry, 10 passes of 11 instructions
    // through the loop, then `>` and `.`.
    let outcome = interpret(MULTIPLY, Vec::new(), 1_000).unwrap();
    assert_eq!(outcome.runtime.budget, 1_000 - (10 + 1 + 10 * 11 + 2));
}

#[test]
fn echo_emits_the_byte_it_read() {
    let outcome = interpret(",.", vec![65], 10).unwrap();
    assert!(outcome.halted);
    assert_eq!(outcome.runtime.output, vec![65]);
    assert_eq!(outcome.runtime.consumed, 1);
    let (_, runtime) = recursive(",.", &[65], 10);
    assert_eq!(runtime.output, vec![65]);
}

#[test]
fn echo_without_input_emits_zero() {
    let outcome = interpret(",.", Vec::new(), 10).unwrap();
    assert!(outcome.halted);
    assert_eq!(outcome.runtime.output, vec![0]);
    let (_, runtime) = recursive(",.", &[], 10);
    assert_eq!(runtime.output, vec![0]);
}

#[test]
fn end_of_stream_overwrites_the_cell() {
    let outcome = interpret("+++,.", Vec::new(), 10).unwrap();
    assert_eq!(outcome.runtime.output, vec![0]);
    assert_eq!(outcome.runtime.tape.cell(0), 0);
}

#[test]
fn unterminated_program_runs_nothing() {
    let error = match interpret("[", vec![1, 2, 3], 100) {
        Ok(_) => panic!("an unbalanced program must not run"),
        Err(error) => error,
    };
    assert_eq!(error, UnbalancedLoop { position: 0 });
    let error = match interpret("+.[", Vec::new(), 100) {
        Ok(_) => panic!("an unbalanced program must not run"),
        Err(error) => error,
    };
    assert_eq!(error, UnbalancedLoop { position: 2 });
}

#[test]
fn dangling_close_runs_nothing() {
    let error = match interpret("+.]", Vec::new(), 100) {
        Ok(_) => panic!("an unbalanced program must not run"),
        Err(error) => error,
    };
    assert_eq!(error, UnbalancedLoop { position: 2 });
}

#[test]
fn nested_loops_emit_eight() {
    let (end, runtime) = flat(NESTED, &[], 10_000);
    assert_eq!(end, 19);
    assert_eq!(runtime.output, vec![8]);
    let (end, runtime) = recursive(NESTED, &[], 10_000);
    assert_eq!(end, 19);
    assert_eq!(runtime.output, vec![8]);
}

#[test]
fn strategies_agree_on_nested_loops() {
    assert_same_run(NESTED, &[], 10_000);
}

#[test]
fn strategies_agree_on_the_multiplication() {
    assert_same_run(MULTIPLY, &[], 10_000);
}

#[test]
fn strategies_agree_on_a_greeting() {
    let (_, runtime) = flat(HELLO, &[], 100_000);
    assert_eq!(runtime.output, b"Hello World!\n".to_vec());
    let (_, runtime) = recursive(HELLO, &[], 100_000);
    assert_eq!(runtime.output, b"Hello World!\n".to_vec());
    assert_same_run(HELLO, &[], 100_000);
}

#[test]
fn strategies_agree_on_input() {
    // Writes each byte incremented until it reads a zero.
    assert_same_run(",[+.,]", &[1, 2, 255, 7], 1_000);
    let (_, runtime) = recursive(",[+.,]", &[1, 2, 255, 7], 1_000);
    assert_eq!(runtime.output, vec![2, 3, 0, 8]);
    assert_eq!(runtime.consumed, 4);
    let (_, runtime) = recursive(",[+.,]", &[1, 0, 7], 1_000);
    assert_eq!(runtime.output, vec![2]);
    assert_eq!(runtime.consumed, 2);
}

#[test]
fn strategies_agree_on_empty_loops() {
    assert_same_run("[]", &[], 100);
    assert_same_run("[][[]]+[-[]].", &[], 100);
    let (end, runtime) = recursive("[]", &[], 100);
    assert_eq!(end, 2);
    assert_eq!(runtime.budget, 99);
}

#[test]
fn strategies_agree_on_deep_nesting() {
    assert_same_run("+[[[[[[[[-]]]]]]]].", &[], 1_000);
    assert_same_run("+++[>+++[>+++[>+++[>+<-]<-]<-]<-]>>>>.", &[], 100_000);
    let (_, runtime) = recursive("+++[>+++[>+++[>+++[>+<-]<-]<-]<-]>>>>.", &[], 100_000);
    assert_eq!(runtime.output, vec![81]);
}

#[test]
fn strategies_agree_at_every_budget() {
    for budget in 0..200 {
        assert_same_run(NESTED, &[], budget);
        assert_same_run("+[]", &[], budget);
        assert_same_run(",[>+<-]>.", &[5], budget);
    }
}

#[test]
fn strategies_agree_around_the_tape() {
    assert_same_run("<+.>>-.<<<++.", &[], 100);
    let (_, runtime) = flat("<+.>>-.", &[], 100);
    assert_eq!(runtime.output, vec![1, 255]);
    assert_eq!(runtime.tape.cell(29_999), 1);
    assert_eq!(runtime.tape.cell(1), 255);
    assert_eq!(runtime.tape.pointer(), 1);
}

#[test]
fn spinning_loop_stops_when_the_budget_is_spent() {
    let outcome = interpret("+[]", Vec::new(), 100).unwrap();
    assert!(!outcome.halted);
    assert_eq!(outcome.runtime.budget, 0);
    assert_eq!(outcome.instruction_pointer, 2);
    assert_eq!(outcome.runtime.tape.cell(0), 1);
    let (end, runtime) = recursive("+[]", &[], 100);
    assert_eq!(end, 2);
    assert_eq!(runtime.budget, 0);
}

#[test]
fn zero_budget_runs_nothing() {
    let outcome = interpret("+.", Vec::new(), 0).unwrap();
    assert!(!outcome.halted);
    assert_eq!(outcome.instruction_pointer, 0);
    assert!(outcome.runtime.output.is_empty());
    assert_eq!(outcome.runtime.tape.cell(0), 0);
}

#[test]
fn empty_program_halts_at_once() {
    let outcome = interpret("nothing to do", vec![1], 5).unwrap();
    assert!(outcome.halted);
    assert_eq!(outcome.instruction_pointer, 0);
    assert_eq!(outcome.runtime.budget, 5);
    assert_eq!(outcome.runtime.consumed, 0);
}

#[test]
fn budget_that_just_suffices_halts() {
    let outcome = interpret("+++", Vec::new(), 3).unwrap();
    assert!(outcome.halted);
    assert_eq!(outcome.runtime.budget, 0);
    assert_eq!(outcome.runtime.tape.cell(0), 3);
    let outcome = interpret("+++", Vec::new(), 2).unwrap();
    assert!(!outcome.halted);
    assert_eq!(outcome.instruction_pointer, 2);
    assert_eq!(outcome.runtime.tape.cell(0), 2);
}

#[test]
fn commentary_does_not_change_the_run() {
    let plain = interpret("++>+++[<+>-]<.", Vec::new(), 1_000).unwrap();
    let annotated = interpret(
        "two: ++ next cell three: >+++ add [<+>-] print: <.",
        Vec::new(),
        1_000,
    )
    .unwrap();
    assert_eq!(plain.runtime.output, vec![5]);
    assert_eq!(annotated.runtime.output, vec![5]);
    assert_eq!(plain.runtime.budget, annotated.runtime.budget);
}

#[test]
fn slice_runs_as_a_loop_body() {
    // The loop-close has no loop-open in the slice: on a non-zero cell it
    // starts the slice again, on zero it ends the run one past itself.
    let body = vec![
        Instruction::Decrement,
        Instruction::Output,
        Instruction::LoopClose,
        Instruction::Increment,
    ];
    let mut runtime = Runtime::new(Vec::new(), 100);
    runtime.tape.store(3);
    let end = execute(&body, &mut runtime);
    assert_eq!(end, 3);
    assert_eq!(runtime.output, vec![2, 1, 0]);
    assert_eq!(runtime.tape.current(), 0);
    assert_eq!(runtime.budget, 91);
}

#[test]
fn execute_on_tokenized_text() {
    let instructions = tokenize("+>++>+++<<[->]");
    let mut runtime = Runtime::new(Vec::new(), 100);
    let end = execute(&instructions, &mut runtime);
    assert_eq!(end, instructions.len());
    assert_eq!(runtime.tape.cell(0), 0);
    assert_eq!(runtime.tape.cell(1), 1);
    assert_eq!(runtime.tape.cell(2), 2);
    assert_eq!(runtime.tape.pointer(), 3);
}

#[test]
fn step_reports_what_the_streams_must_do() {
    let program = Program::parse("+.,>[-]<[+]").unwrap();
    let mut tape = Tape::new();
    assert_eq!(program.step(0, &mut tape), (1, Effect::Internal));
    assert_eq!(tape.current(), 1);
    assert_eq!(program.step(1, &mut tape), (2, Effect::Write(1)));
    assert_eq!(program.step(2, &mut tape), (3, Effect::Read));
    assert_eq!(tape.current(), 1);
    tape.accept(Some(9));
    assert_eq!(tape.current(), 9);
    assert_eq!(program.step(3, &mut tape), (4, Effect::Internal));
    assert_eq!(tape.pointer(), 1);
    // A loop-open on a zero cell jumps past its loop-close.
    assert_eq!(program.step(4, &mut tape), (7, Effect::Internal));
    assert_eq!(program.step(7, &mut tape), (8, Effect::Internal));
    assert_eq!(tape.pointer(), 0);
    // A loop-open on a non-zero cell enters the loop.
    assert_eq!(program.step(8, &mut tape), (9, Effect::Internal));
    assert_eq!(program.step(9, &mut tape), (10, Effect::Internal));
    assert_eq!(tape.current(), 10);
    // A loop-close on a non-zero cell jumps back into the loop.
    assert_eq!(program.step(10, &mut tape), (9, Effect::Internal));
    tape.store(0);
    // A loop-close on a zero cell leaves the loop.
    assert_eq!(program.step(10, &mut tape), (11, Effect::Internal));
}

#[test]
fn stepping_by_hand_matches_the_engine() {
    let program = Program::parse(MULTIPLY).unwrap();
    let mut tape = Tape::new();
    let mut output = Vec::new();
    let mut ip = 0;
    while ip < program.len() {
        let (next, effect) = program.step(ip, &mut tape);
        match effect {
            Effect::Internal => {}
            Effect::Write(byte) => output.push(byte),
            Effect::Read => tape.accept(None),
        }
        ip = next;
    }
    assert_eq!(output, vec![70]);
}
