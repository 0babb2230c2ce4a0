//! The instruction alphabet and the sanitizer that produces it from text.

use vstd::prelude::*;
use vstd::std_specs::convert::FromSpecImpl;

verus! {

/// One instruction of the language, or the marker for a character that is
/// none. `Invalid` exists only while text is being classified: the
/// sanitizer drops it, and the engines never accept it.
#[derive(Clone, Copy, Debug, PartialEq, Eq, Structural)]
pub enum Instruction {
    /// `>`: move the data pointer one cell to the right.
    Right,
    /// `<`: move the data pointer one cell to the left.
    Left,
    /// `+`: add one to the current cell.
    Increment,
    /// `-`: subtract one from the current cell.
    Decrement,
    /// `.`: write the current cell to the output stream.
    Output,
    /// `,`: read one byte of the input stream into the current cell.
    Input,
    /// `[`: skip the loop if the current cell is zero.
    LoopOpen,
    /// `]`: repeat the loop if the current cell is not zero.
    LoopClose,
    /// Any character outside the alphabet.
    Invalid,
}

/// The instruction that a character stands for.
pub open spec fn classify(c: char) -> Instruction {
    if c == '>' {
        Instruction::Right
    } else if c == '<' {
        Instruction::Left
    } else if c == '+' {
        Instruction::Increment
    } else if c == '-' {
        Instruction::Decrement
    } else if c == '.' {
        Instruction::Output
    } else if c == ',' {
        Instruction::Input
    } else if c == '[' {
        Instruction::LoopOpen
    } else if c == ']' {
        Instruction::LoopClose
    } else {
        Instruction::Invalid
    }
}

impl From<char> for Instruction {
    fn from(value: char) -> (instruction: Self) {
        match value {
            '>' => Self::Right,
            '<' => Self::Left,
            '+' => Self::Increment,
            '-' => Self::Decrement,
            '.' => Self::Output,
            ',' => Self::Input,
            '[' => Self::LoopOpen,
            ']' => Self::LoopClose,
            _ => Self::Invalid,
        }
    }
}

impl FromSpecImpl<char> for Instruction {
    open spec fn obeys_from_spec() -> bool {
        true
    }

    open spec fn from_spec(value: char) -> Self {
        classify(value)
    }
}

/// The instructions that a text denotes: its characters classified in
/// order, with every character outside the alphabet left out.
pub open spec fn sanitized(source: Seq<char>) -> Seq<Instruction> {
    source.map_values(|c: char| classify(c)).filter(|i: Instruction| i != Instruction::Invalid)
}

/// Appending one character to a text appends its instruction to the
/// sanitized text, or nothing if the character is commentary.
pub proof fn lemma_sanitized_push(source: Seq<char>, c: char)
    ensures
        sanitized(source.push(c)) == if classify(c) != Instruction::Invalid {
            sanitized(source).push(classify(c))
        } else {
            sanitized(source)
        },
{
    reveal(Seq::filter);
    let classified = source.push(c).map_values(|c: char| classify(c));
    assert(classified.drop_last() =~= source.map_values(|c: char| classify(c)));
    assert(classified.last() == classify(c));
}

/// Turns program text into instructions. Commentary is dropped without
/// complaint; the relative order of the instructions is kept.
pub fn tokenize(source: &str) -> (instructions: Vec<Instruction>)
    ensures
        instructions@ == sanitized(source@),
{
    let mut instructions: Vec<Instruction> = Vec::new();
    proof {
        broadcast use vstd::string::axiom_spec_iter;
        assert(source@.take(0) =~= Seq::<char>::empty());
        reveal(Seq::filter);
        assert(sanitized(Seq::<char>::empty()) =~= Seq::<Instruction>::empty());
    }
    for c in it: source.chars()
        invariant
            it.seq() == source@,
            instructions@ == sanitized(source@.take(it.index())),
    {
        proof {
            lemma_sanitized_push(source@.take(it.index()), c);
            assert(source@.take(it.index() + 1) =~= source@.take(it.index()).push(c));
        }
        let instruction = Instruction::from(c);
        if instruction != Instruction::Invalid {
            instructions.push(instruction);
        }
    }
    proof {
        assert(source@.take(source@.len() as int) =~= source@);
    }
    instructions
}

} // verus!
