use tapevm::instruction::{tokenize, Instruction};

#[test]
fn every_symbol_is_classified() {
    assert_eq!(Instruction::from('>'), Instruction::Right);
    assert_eq!(Instruction::from('<'), Instruction::Left);
    assert_eq!(Instruction::from('+'), Instruction::Increment);
    assert_eq!(Instruction::from('-'), Instruction::Decrement);
    assert_eq!(Instruction::from('.'), Instruction::Output);
    assert_eq!(Instruction::from(','), Instruction::Input);
    assert_eq!(Instruction::from('['), Instruction::LoopOpen);
    assert_eq!(Instruction::from(']'), Instruction::LoopClose);
}

#[test]
fn other_characters_are_invalid() {
    for c in ['a', ' ', '\n', '0', '(', '{', '=', '\u{e9}', '\u{1f600}'] {
        assert_eq!(Instruction::from(c), Instruction::Invalid);
    }
}

#[test]
fn into_goes_through_from() {
    let instruction: Instruction = '+'.into();
    assert_eq!(instruction, Instruction::Increment);
}

#[test]
fn tokenize_keeps_order() {
    assert_eq!(
        tokenize("><+-.,[]"),
        vec![
            Instruction::Right,
            Instruction::Left,
            Instruction::Increment,
            Instruction::Decrement,
            Instruction::Output,
            Instruction::Input,
            Instruction::LoopOpen,
            Instruction::LoopClose,
        ]
    );
}

#[test]
fn tokenize_drops_commentary() {
    assert_eq!(
        tokenize("add one: + then print. (done)"),
        vec![Instruction::Increment, Instruction::Output]
    );
}

#[test]
fn tokenize_never_yields_invalid() {
    let instructions = tokenize("a+b-c\u{1f600}[x]\t\r\n,");
    assert_eq!(instructions.len(), 5);
    assert!(instructions.iter().all(|i| *i != Instruction::Invalid));
}

#[test]
fn tokenize_empty_and_pure_commentary() {
    assert_eq!(tokenize(""), Vec::<Instruction>::new());
    assert_eq!(tokenize("no instructions here"), Vec::<Instruction>::new());
}

#[test]
fn tokenize_counts_characters_not_bytes() {
    assert_eq!(
        tokenize("\u{e9}+\u{4e2d}\u{6587}-"),
        vec![Instruction::Increment, Instruction::Decrement]
    );
}
