//! Loop correspondence: which loop-close belongs to which loop-open.
//!
//! The pairing depends on bracket nesting alone. It is defined here by two
//! scans with a nesting counter, one forward from an open and one backward
//! from a close, and shown to be a proper nesting.

use vstd::prelude::*;
use crate::instruction::Instruction;

verus! {

/// Scans forward from `from` with `depth` loops already open and returns
/// the position of the loop-close that brings the depth below zero, or the
/// program's length if the program ends first.
pub open spec fn find_close(program: Seq<Instruction>, from: int, depth: nat) -> int
    decreases program.len() - from,
{
    if from < 0 || from >= program.len() {
        program.len() as int
    } else if program[from] == Instruction::LoopOpen {
        find_close(program, from + 1, depth + 1)
    } else if program[from] == Instruction::LoopClose {
        if depth == 0 {
            from
        } else {
            find_close(program, from + 1, (depth - 1) as nat)
        }
    } else {
        find_close(program, from + 1, depth)
    }
}

/// Scans backward from `from` with `depth` loops already closed and
/// returns the position of the loop-open that brings the depth below zero,
/// or -1 if the program begins first.
pub open spec fn find_open(program: Seq<Instruction>, from: int, depth: nat) -> int
    decreases from + 1,
{
    if from < 0 || from >= program.len() {
        -1
    } else if program[from] == Instruction::LoopClose {
        find_open(program, from - 1, depth + 1)
    } else if program[from] == Instruction::LoopOpen {
        if depth == 0 {
            from
        } else {
            find_open(program, from - 1, (depth - 1) as nat)
        }
    } else {
        find_open(program, from - 1, depth)
    }
}

/// The position of the loop-close that matches the loop-open at `open`,
/// or the program's length if there is none.
pub open spec fn matching_close(program: Seq<Instruction>, open: int) -> int {
    find_close(program, open + 1, 0)
}

/// The position of the loop-open that matches the loop-close at `close`,
/// or -1 if there is none.
pub open spec fn matching_open(program: Seq<Instruction>, close: int) -> int {
    find_open(program, close - 1, 0)
}

/// Every loop-open has a matching loop-close.
pub open spec fn opens_matched(program: Seq<Instruction>) -> bool {
    forall|i: int|
        0 <= i < program.len() && #[trigger] program[i] == Instruction::LoopOpen
            ==> matching_close(program, i) < program.len()
}

/// Every loop-close has a matching loop-open.
pub open spec fn closes_matched(program: Seq<Instruction>) -> bool {
    forall|i: int|
        0 <= i < program.len() && #[trigger] program[i] == Instruction::LoopClose
            ==> matching_open(program, i) >= 0
}

/// The brackets of the program pair up completely.
pub open spec fn balanced(program: Seq<Instruction>) -> bool {
    opens_matched(program) && closes_matched(program)
}

/// The first position at or after `from` that holds a loop-open without a
/// matching loop-close, or the program's length if there is none.
pub open spec fn first_unmatched_open(program: Seq<Instruction>, from: int) -> int
    decreases program.len() - from,
{
    if from < 0 || from >= program.len() {
        program.len() as int
    } else if program[from] == Instruction::LoopOpen && matching_close(program, from)
        >= program.len() {
        from
    } else {
        first_unmatched_open(program, from + 1)
    }
}

/// The first loop-close without a matching loop-open, or the program's
/// length if there is none.
pub open spec fn first_unmatched_close(program: Seq<Instruction>) -> int {
    find_close(program, 0, 0)
}

/// The position that an unbalanced program is rejected for: its first
/// unmatched loop-close if it has one, else its first unmatched loop-open.
pub open spec fn offending_position(program: Seq<Instruction>) -> int {
    if first_unmatched_close(program) < program.len() {
        first_unmatched_close(program)
    } else {
        first_unmatched_open(program, 0)
    }
}

/// Each loop-close lies after its loop-open, and two loops are either
/// disjoint or one lies inside the other: their brackets never cross.
pub open spec fn properly_nested(program: Seq<Instruction>) -> bool {
    &&& forall|i: int|
        0 <= i < program.len() && #[trigger] program[i] == Instruction::LoopOpen ==> i
            < matching_close(program, i)
    &&& forall|i: int, j: int|
        0 <= i < j < program.len() && #[trigger] program[i] == Instruction::LoopOpen
            && #[trigger] program[j] == Instruction::LoopOpen ==> matching_close(program, i) < j
            || matching_close(program, j) < matching_close(program, i)
}

/// A forward scan never goes backward, never leaves the program, and
/// stops only at a loop-close.
pub proof fn lemma_find_close_bounds(program: Seq<Instruction>, from: int, depth: nat)
    requires
        0 <= from,
    ensures
        from <= find_close(program, from, depth) || find_close(program, from, depth)
            == program.len(),
        find_close(program, from, depth) <= program.len(),
        find_close(program, from, depth) < program.len() ==> program[find_close(
            program,
            from,
            depth,
        )] == Instruction::LoopClose,
    decreases program.len() - from,
{
    if from < program.len() {
        if program[from] == Instruction::LoopOpen {
            lemma_find_close_bounds(program, from + 1, depth + 1);
        } else if program[from] == Instruction::LoopClose {
            if depth > 0 {
                lemma_find_close_bounds(program, from + 1, (depth - 1) as nat);
            }
        } else {
            lemma_find_close_bounds(program, from + 1, depth);
        }
    }
}

/// A backward scan never goes forward, and stops only at a loop-open.
pub proof fn lemma_find_open_bounds(program: Seq<Instruction>, from: int, depth: nat)
    requires
        from < program.len(),
    ensures
        -1 <= find_open(program, from, depth) <= from || find_open(program, from, depth) == -1,
        find_open(program, from, depth) >= 0 ==> program[find_open(program, from, depth)]
            == Instruction::LoopOpen,
    decreases from + 1,
{
    if from >= 0 {
        if program[from] == Instruction::LoopClose {
            lemma_find_open_bounds(program, from - 1, depth + 1);
        } else if program[from] == Instruction::LoopOpen {
            if depth > 0 {
                lemma_find_open_bounds(program, from - 1, (depth - 1) as nat);
            }
        } else {
            lemma_find_open_bounds(program, from - 1, depth);
        }
    }
}

/// A forward scan that starts deeper stops later: it must first pass the
/// loop-close at which the shallower scan stops.
pub proof fn lemma_find_close_deeper(program: Seq<Instruction>, from: int, depth: nat)
    requires
        0 <= from,
    ensures
        find_close(program, from, depth) < program.len() ==> find_close(program, from, depth)
            < find_close(program, from, depth + 1),
        find_close(program, from, depth) >= program.len() ==> find_close(
            program,
            from,
            depth + 1,
        ) == program.len(),
    decreases program.len() - from,
{
    if from < program.len() {
        if program[from] == Instruction::LoopOpen {
            lemma_find_close_deeper(program, from + 1, depth + 1);
        } else if program[from] == Instruction::LoopClose {
            if depth > 0 {
                lemma_find_close_deeper(program, from + 1, (depth - 1) as nat);
            } else {
                lemma_find_close_bounds(program, from + 1, 0);
            }
        } else {
            lemma_find_close_deeper(program, from + 1, depth);
        }
    }
}

/// A loop-close that a forward scan from `from` stops at has, as its
/// backward scan, the continuation of the backward scan from just before
/// `from` at the same depth.
pub proof fn lemma_scan_back_from_close(program: Seq<Instruction>, from: int, depth: nat)
    requires
        0 <= from,
        find_close(program, from, depth) < program.len(),
    ensures
        matching_open(program, find_close(program, from, depth)) == find_open(
            program,
            from - 1,
            depth,
        ),
    decreases program.len() - from,
{
    if from < program.len() {
        if program[from] == Instruction::LoopOpen {
            lemma_scan_back_from_close(program, from + 1, depth + 1);
        } else if program[from] == Instruction::LoopClose {
            if depth > 0 {
                lemma_scan_back_from_close(program, from + 1, (depth - 1) as nat);
            }
        } else {
            lemma_scan_back_from_close(program, from + 1, depth);
        }
    }
}

/// The mirror image of [`lemma_scan_back_from_close`].
pub proof fn lemma_scan_forth_from_open(program: Seq<Instruction>, from: int, depth: nat)
    requires
        from < program.len(),
        find_open(program, from, depth) >= 0,
    ensures
        matching_close(program, find_open(program, from, depth)) == find_close(
            program,
            from + 1,
            depth,
        ),
    decreases from + 1,
{
    if from >= 0 {
        if program[from] == Instruction::LoopClose {
            lemma_scan_forth_from_open(program, from - 1, depth + 1);
        } else if program[from] == Instruction::LoopOpen {
            if depth > 0 {
                lemma_scan_forth_from_open(program, from - 1, (depth - 1) as nat);
            }
        } else {
            lemma_scan_forth_from_open(program, from - 1, depth);
        }
    }
}

/// The loop-close that matches a loop-open has that loop-open as its own
/// match.
pub proof fn lemma_close_matches_back(program: Seq<Instruction>, open: int)
    requires
        0 <= open < program.len(),
        program[open] == Instruction::LoopOpen,
        matching_close(program, open) < program.len(),
    ensures
        open < matching_close(program, open),
        program[matching_close(program, open)] == Instruction::LoopClose,
        matching_open(program, matching_close(program, open)) == open,
{
    lemma_find_close_bounds(program, open + 1, 0);
    lemma_scan_back_from_close(program, open + 1, 0);
}

/// The loop-open that matches a loop-close has that loop-close as its own
/// match.
pub proof fn lemma_open_matches_forth(program: Seq<Instruction>, close: int)
    requires
        0 <= close < program.len(),
        program[close] == Instruction::LoopClose,
        matching_open(program, close) >= 0,
    ensures
        matching_open(program, close) < close,
        program[matching_open(program, close)] == Instruction::LoopOpen,
        matching_close(program, matching_open(program, close)) == close,
{
    lemma_find_open_bounds(program, close - 1, 0);
    lemma_scan_forth_from_open(program, close - 1, 0);
}

/// A loop-open that a forward scan passes before it stops has its own
/// matching loop-close before that stop.
pub proof fn lemma_inner_loop_closes_first(
    program: Seq<Instruction>,
    from: int,
    depth: nat,
    open: int,
)
    requires
        0 <= from <= open < find_close(program, from, depth),
        find_close(program, from, depth) < program.len(),
        program[open] == Instruction::LoopOpen,
    ensures
        matching_close(program, open) < find_close(program, from, depth),
    decreases open - from,
{
    if from == open {
        lemma_find_close_deeper(program, open + 1, 0);
        lemma_find_close_deeper_by(program, open + 1, 1, depth);
    } else if program[from] == Instruction::LoopOpen {
        lemma_inner_loop_closes_first(program, from + 1, depth + 1, open);
    } else if program[from] == Instruction::LoopClose {
        if depth > 0 {
            lemma_inner_loop_closes_first(program, from + 1, (depth - 1) as nat, open);
        }
    } else {
        lemma_inner_loop_closes_first(program, from + 1, depth, open);
    }
}

/// [`lemma_find_close_deeper`], for any number of further levels.
pub proof fn lemma_find_close_deeper_by(
    program: Seq<Instruction>,
    from: int,
    depth: nat,
    more: nat,
)
    requires
        0 <= from,
    ensures
        find_close(program, from, depth) <= find_close(program, from, depth + more),
    decreases more,
{
    if more > 0 {
        lemma_find_close_deeper(program, from, (depth + more - 1) as nat);
        lemma_find_close_deeper_by(program, from, depth, (more - 1) as nat);
        lemma_find_close_bounds(program, from, (depth + more - 1) as nat);
    }
}

/// A backward scan that starts deeper stops earlier: it must first pass
/// the loop-open at which the shallower scan stops.
pub proof fn lemma_find_open_deeper(program: Seq<Instruction>, from: int, depth: nat)
    requires
        from < program.len(),
    ensures
        find_open(program, from, depth + 1) < find_open(program, from, depth) || find_open(
            program,
            from,
            depth,
        ) == -1,
        find_open(program, from, depth) == -1 ==> find_open(program, from, depth + 1) == -1,
    decreases from + 1,
{
    if from >= 0 {
        if program[from] == Instruction::LoopClose {
            lemma_find_open_deeper(program, from - 1, depth + 1);
        } else if program[from] == Instruction::LoopOpen {
            if depth > 0 {
                lemma_find_open_deeper(program, from - 1, (depth - 1) as nat);
            } else {
                lemma_find_open_bounds(program, from - 1, 0);
            }
        } else {
            lemma_find_open_deeper(program, from - 1, depth);
        }
    }
}

/// [`lemma_find_open_deeper`], for any number of further levels.
pub proof fn lemma_find_open_deeper_by(
    program: Seq<Instruction>,
    from: int,
    depth: nat,
    more: nat,
)
    requires
        from < program.len(),
    ensures
        find_open(program, from, depth + more) <= find_open(program, from, depth),
    decreases more,
{
    if more > 0 {
        lemma_find_open_deeper(program, from, (depth + more - 1) as nat);
        lemma_find_open_deeper_by(program, from, depth, (more - 1) as nat);
    }
}

/// A loop-close that a backward scan passes before it stops has its own
/// matching loop-open after that stop.
pub proof fn lemma_inner_loop_opens_last(
    program: Seq<Instruction>,
    from: int,
    depth: nat,
    close: int,
)
    requires
        find_open(program, from, depth) < close <= from < program.len(),
        find_open(program, from, depth) >= 0,
        program[close] == Instruction::LoopClose,
    ensures
        find_open(program, from, depth) < matching_open(program, close),
    decreases from - close,
{
    if from == close {
        lemma_find_open_deeper(program, close - 1, 0);
        lemma_find_open_deeper_by(program, close - 1, 1, depth);
    } else if program[from] == Instruction::LoopClose {
        lemma_inner_loop_opens_last(program, from - 1, depth + 1, close);
    } else if program[from] == Instruction::LoopOpen {
        if depth > 0 {
            lemma_inner_loop_opens_last(program, from - 1, (depth - 1) as nat, close);
        }
    } else {
        lemma_inner_loop_opens_last(program, from - 1, depth, close);
    }
}

/// A forward scan that starts one level deeper goes on, at depth zero,
/// from where the shallower scan stops.
pub proof fn lemma_find_close_resumes(program: Seq<Instruction>, from: int, depth: nat)
    requires
        0 <= from,
        find_close(program, from, depth) < program.len(),
    ensures
        find_close(program, from, depth + 1) == find_close(
            program,
            find_close(program, from, depth) + 1,
            0,
        ),
    decreases program.len() - from,
{
    if from < program.len() {
        if program[from] == Instruction::LoopOpen {
            lemma_find_close_resumes(program, from + 1, depth + 1);
        } else if program[from] == Instruction::LoopClose {
            if depth > 0 {
                lemma_find_close_resumes(program, from + 1, (depth - 1) as nat);
            }
        } else {
            lemma_find_close_resumes(program, from + 1, depth);
        }
    }
}

/// The first unmatched loop-close has indeed no matching loop-open.
pub proof fn lemma_first_unmatched_close(program: Seq<Instruction>)
    requires
        first_unmatched_close(program) < program.len(),
    ensures
        0 <= first_unmatched_close(program),
        program[first_unmatched_close(program)] == Instruction::LoopClose,
        matching_open(program, first_unmatched_close(program)) == -1,
{
    lemma_find_close_bounds(program, 0, 0);
    lemma_scan_back_from_close(program, 0, 0);
}

/// A forward scan sees a suffix of the program as it sees the program.
pub proof fn lemma_find_close_skip(
    program: Seq<Instruction>,
    offset: int,
    from: int,
    depth: nat,
)
    requires
        0 <= offset <= program.len(),
        0 <= from,
    ensures
        find_close(program.skip(offset), from, depth) + offset == find_close(
            program,
            from + offset,
            depth,
        ),
    decreases program.len() - from,
{
    let suffix = program.skip(offset);
    if from < suffix.len() {
        assert(suffix[from] == program[from + offset]);
        if suffix[from] == Instruction::LoopOpen {
            lemma_find_close_skip(program, offset, from + 1, depth + 1);
        } else if suffix[from] == Instruction::LoopClose {
            if depth > 0 {
                lemma_find_close_skip(program, offset, from + 1, (depth - 1) as nat);
            }
        } else {
            lemma_find_close_skip(program, offset, from + 1, depth);
        }
    }
}

/// A forward scan that stops inside a prefix of the program sees the
/// prefix as it sees the program.
pub proof fn lemma_find_close_take(
    program: Seq<Instruction>,
    len: int,
    from: int,
    depth: nat,
)
    requires
        0 <= from,
        0 <= len <= program.len(),
        find_close(program, from, depth) < len,
    ensures
        find_close(program.take(len), from, depth) == find_close(program, from, depth),
    decreases program.len() - from,
{
    let prefix = program.take(len);
    lemma_find_close_bounds(program, from, depth);
    if from < program.len() {
        assert(prefix[from] == program[from]);
        if program[from] == Instruction::LoopOpen {
            lemma_find_close_take(program, len, from + 1, depth + 1);
        } else if program[from] == Instruction::LoopClose {
            if depth > 0 {
                lemma_find_close_take(program, len, from + 1, (depth - 1) as nat);
            }
        } else {
            lemma_find_close_take(program, len, from + 1, depth);
        }
    }
}

/// A backward scan sees a prefix of the program as it sees the program.
pub proof fn lemma_find_open_take(
    program: Seq<Instruction>,
    len: int,
    from: int,
    depth: nat,
)
    requires
        from < len <= program.len(),
    ensures
        find_open(program.take(len), from, depth) == find_open(program, from, depth),
    decreases from + 1,
{
    let prefix = program.take(len);
    if from >= 0 {
        assert(prefix[from] == program[from]);
        if program[from] == Instruction::LoopClose {
            lemma_find_open_take(program, len, from - 1, depth + 1);
        } else if program[from] == Instruction::LoopOpen {
            if depth > 0 {
                lemma_find_open_take(program, len, from - 1, (depth - 1) as nat);
            }
        } else {
            lemma_find_open_take(program, len, from - 1, depth);
        }
    }
}

/// A backward scan that stops inside a suffix of the program sees the
/// suffix as it sees the program.
pub proof fn lemma_find_open_skip(
    program: Seq<Instruction>,
    offset: int,
    from: int,
    depth: nat,
)
    requires
        0 <= offset <= program.len(),
        from + offset < program.len(),
        find_open(program, from + offset, depth) >= offset,
    ensures
        find_open(program.skip(offset), from, depth) + offset == find_open(
            program,
            from + offset,
            depth,
        ),
    decreases from + 1,
{
    let suffix = program.skip(offset);
    lemma_find_open_bounds(program, from + offset, depth);
    if from >= 0 {
        assert(suffix[from] == program[from + offset]);
        if suffix[from] == Instruction::LoopClose {
            lemma_find_open_skip(program, offset, from - 1, depth + 1);
        } else if suffix[from] == Instruction::LoopOpen {
            if depth > 0 {
                lemma_find_open_skip(program, offset, from - 1, (depth - 1) as nat);
            }
        } else {
            lemma_find_open_skip(program, offset, from - 1, depth);
        }
    }
}

/// In a program whose loop-opens all have a match, each match lies after
/// its loop-open and no two loops cross.
pub proof fn lemma_matched_loops_nest(program: Seq<Instruction>)
    requires
        opens_matched(program),
    ensures
        properly_nested(program),
{
    assert forall|i: int|
        0 <= i < program.len() && #[trigger] program[i] == Instruction::LoopOpen implies i
        < matching_close(program, i) by {
        lemma_close_matches_back(program, i);
    }
    assert forall|i: int, j: int|
        0 <= i < j < program.len() && #[trigger] program[i] == Instruction::LoopOpen
            && #[trigger] program[j] == Instruction::LoopOpen implies matching_close(program, i)
        < j || matching_close(program, j) < matching_close(program, i) by {
        lemma_find_close_bounds(program, i + 1, 0);
        if j < matching_close(program, i) {
            lemma_inner_loop_closes_first(program, i + 1, 0, j);
        }
    }
}

} // verus!
