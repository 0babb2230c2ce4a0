use tapevm::runtime::Runtime;
use tapevm::tape::{Tape, TAPE_LEN};

#[test]
fn tape_has_thirty_thousand_cells() {
    assert_eq!(TAPE_LEN, 30_000);
}

#[test]
fn new_tape_is_blank() {
    let tape = Tape::new();
    assert_eq!(tape.pointer(), 0);
    assert_eq!(tape.current(), 0);
    for index in 0..TAPE_LEN {
        assert_eq!(tape.cell(index), 0);
    }
}

#[test]
fn increment_wraps_at_255() {
    let mut tape = Tape::new();
    tape.store(255);
    tape.increment();
    assert_eq!(tape.current(), 0);
}

#[test]
fn decrement_wraps_at_zero() {
    let mut tape = Tape::new();
    tape.decrement();
    assert_eq!(tape.current(), 255);
}

#[test]
fn increment_then_decrement_restores_every_value() {
    for value in 0..=255u8 {
        let mut tape = Tape::new();
        tape.store(value);
        tape.increment();
        assert_eq!(tape.current(), value.wrapping_add(1));
        tape.decrement();
        assert_eq!(tape.current(), value);
        assert_eq!(tape.pointer(), 0);
    }
}

#[test]
fn decrement_then_increment_restores_every_value() {
    for value in 0..=255u8 {
        let mut tape = Tape::new();
        tape.store(value);
        tape.decrement();
        assert_eq!(tape.current(), value.wrapping_sub(1));
        tape.increment();
        assert_eq!(tape.current(), value);
    }
}

#[test]
fn pointer_wraps_to_the_right() {
    let mut tape = Tape::new();
    for _ in 0..TAPE_LEN - 1 {
        tape.move_right();
    }
    assert_eq!(tape.pointer(), 29_999);
    tape.move_right();
    assert_eq!(tape.pointer(), 0);
}

#[test]
fn pointer_wraps_to_the_left() {
    let mut tape = Tape::new();
    tape.move_left();
    assert_eq!(tape.pointer(), 29_999);
    tape.move_right();
    assert_eq!(tape.pointer(), 0);
}

#[test]
fn thirty_thousand_moves_right_come_full_circle() {
    let mut tape = Tape::new();
    for _ in 0..7 {
        tape.move_right();
    }
    tape.store(9);
    for _ in 0..30_000 {
        tape.move_right();
    }
    assert_eq!(tape.pointer(), 7);
    assert_eq!(tape.current(), 9);
}

#[test]
fn thirty_thousand_moves_left_come_full_circle() {
    let mut tape = Tape::new();
    for _ in 0..7 {
        tape.move_right();
    }
    for _ in 0..30_000 {
        tape.move_left();
    }
    assert_eq!(tape.pointer(), 7);
}

#[test]
fn store_touches_only_the_current_cell() {
    let mut tape = Tape::new();
    tape.move_right();
    tape.store(42);
    assert_eq!(tape.cell(0), 0);
    assert_eq!(tape.cell(1), 42);
    assert_eq!(tape.cell(2), 0);
}

#[test]
fn accept_substitutes_zero_at_end_of_stream() {
    let mut tape = Tape::new();
    tape.accept(Some(65));
    assert_eq!(tape.current(), 65);
    tape.accept(None);
    assert_eq!(tape.current(), 0);
}

#[test]
fn runtime_starts_fresh() {
    let runtime = Runtime::new(vec![1, 2, 3], 10);
    assert_eq!(runtime.input, vec![1, 2, 3]);
    assert_eq!(runtime.consumed, 0);
    assert!(runtime.output.is_empty());
    assert_eq!(runtime.budget, 10);
    assert_eq!(runtime.tape.pointer(), 0);
    assert_eq!(runtime.tape.current(), 0);
}

#[test]
fn runtime_reads_in_order_then_zeros() {
    let mut runtime = Runtime::new(vec![7, 8], 0);
    assert_eq!(runtime.read(), 7);
    assert_eq!(runtime.read(), 8);
    assert_eq!(runtime.consumed, 2);
    assert_eq!(runtime.read(), 0);
    assert_eq!(runtime.read(), 0);
    assert_eq!(runtime.consumed, 2);
}

#[test]
fn runtime_writes_in_order() {
    let mut runtime = Runtime::new(Vec::new(), 0);
    runtime.write(1);
    runtime.write(0);
    runtime.write(255);
    assert_eq!(runtime.output, vec![1, 0, 255]);
}
