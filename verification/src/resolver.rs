//! The loop resolver: finds, before anything runs, where every loop
//! begins and ends, or the position for which the program is rejected.

use vstd::prelude::*;
use crate::brackets::{
    balanced, find_close, find_open, first_unmatched_close, first_unmatched_open,
    lemma_close_matches_back, lemma_find_close_bounds,
    lemma_matched_loops_nest, matching_close, matching_open, offending_position, properly_nested,
};
use crate::instruction::Instruction;

verus! {

/// A bracket without a partner. `position` is the index of the offending
/// instruction in the sanitized program.
#[derive(Clone, Copy, Debug, PartialEq, Eq, Structural)]
pub struct UnbalancedLoop {
    pub position: usize,
}

/// The loop correspondence of one program as two parallel index arrays,
/// each as long as the program.
#[derive(Debug)]
pub struct JumpTable {
    /// At the position of a loop-open, the position of its loop-close;
    /// `None` everywhere else.
    pub close_of: Vec<Option<usize>>,
    /// At the position of a loop-close, the position of its loop-open;
    /// `None` everywhere else.
    pub open_of: Vec<Option<usize>>,
}

impl JumpTable {
    /// The table holds exactly the loop correspondence of `program`.
    pub open spec fn resolves(&self, program: Seq<Instruction>) -> bool {
        &&& self.close_of@.len() == program.len()
        &&& self.open_of@.len() == program.len()
        &&& forall|i: int|
            0 <= i < program.len() ==> #[trigger] self.close_of@[i] == if program[i]
                == Instruction::LoopOpen {
                Some(matching_close(program, i) as usize)
            } else {
                None
            }
        &&& forall|i: int|
            0 <= i < program.len() ==> #[trigger] self.open_of@[i] == if program[i]
                == Instruction::LoopClose {
                Some(matching_open(program, i) as usize)
            } else {
                None
            }
    }
}

/// Given a slice that begins with a loop-open, returns how many
/// instructions that loop spans, brackets included, so that the result is
/// the index just past the matching loop-close. Returns `None` if the loop
/// is never closed.
pub fn skip_loop(instructions: &[Instruction]) -> (span: Option<usize>)
    requires
        instructions@.len() > 0,
        instructions@[0] == Instruction::LoopOpen,
    ensures
        span == if matching_close(instructions@, 0) < instructions@.len() {
            Some((matching_close(instructions@, 0) + 1) as usize)
        } else {
            None
        },
{
    let mut level: usize = 0;
    let mut i: usize = 1;
    while i < instructions.len()
        invariant
            1 <= i <= instructions@.len(),
            level < i,
            matching_close(instructions@, 0) == find_close(instructions@, i as int, level as nat),
        decreases instructions@.len() - i,
    {
        match instructions[i] {
            Instruction::LoopOpen => {
                level += 1;
            },
            Instruction::LoopClose => {
                if level == 0 {
                    return Some(i + 1);
                }
                level -= 1;
            },
            _ => {},
        }
        i += 1;
    }
    None
}

/// What the single pass knows after reading `program[..upto]` with the
/// loop-opens in `stack` still waiting for their loop-close, outermost
/// first.
spec fn pending(program: Seq<Instruction>, stack: Seq<usize>, upto: int) -> bool {
    &&& 0 <= upto <= program.len()
    &&& first_unmatched_close(program) == find_close(program, upto, stack.len())
    &&& forall|k: int|
        0 <= k < stack.len() ==> {
            &&& (#[trigger] stack[k]) < upto
            &&& program[stack[k] as int] == Instruction::LoopOpen
            &&& matching_close(program, stack[k] as int) == find_close(
                program,
                upto,
                (stack.len() - 1 - k) as nat,
            )
            &&& find_open(program, upto - 1, (stack.len() - 1 - k) as nat) == stack[k]
        }
    &&& forall|k: int, l: int| 0 <= k < l < stack.len() ==> stack[k] < stack[l]
    &&& forall|depth: nat|
        depth >= stack.len() ==> #[trigger] find_open(program, upto - 1, depth) == -1
    &&& forall|j: int|
        0 <= j < upto && #[trigger] program[j] == Instruction::LoopOpen ==> (matching_close(
            program,
            j,
        ) >= upto <==> stack.contains(j as usize))
}

/// A loop-open that is still waiting has no loop-close among the
/// instructions read so far.
proof fn lemma_pending_not_closed(program: Seq<Instruction>, stack: Seq<usize>, upto: int)
    requires
        pending(program, stack, upto),
    ensures
        forall|k: int| 0 <= k < stack.len() ==> matching_close(program, #[trigger] stack[k] as int) >= upto,
{
    assert forall|k: int| 0 <= k < stack.len() implies matching_close(
        program,
        #[trigger] stack[k] as int,
    ) >= upto by {
        lemma_find_close_bounds(program, upto, (stack.len() - 1 - k) as nat);
    }
}

/// Reading a loop-open pushes it.
proof fn lemma_pending_open(program: Seq<Instruction>, stack: Seq<usize>, upto: usize)
    requires
        pending(program, stack, upto as int),
        upto < program.len(),
        program[upto as int] == Instruction::LoopOpen,
    ensures
        pending(program, stack.push(upto), upto + 1),
{
    let next = stack.push(upto);
    assert forall|k: int| 0 <= k < next.len() implies {
        &&& (#[trigger] next[k]) < upto + 1
        &&& program[next[k] as int] == Instruction::LoopOpen
        &&& matching_close(program, next[k] as int) == find_close(
            program,
            upto + 1,
            (next.len() - 1 - k) as nat,
        )
        &&& find_open(program, upto as int, (next.len() - 1 - k) as nat) == next[k]
    } by {
        if k < stack.len() {
            assert(next[k] == stack[k]);
        }
    }
    assert forall|depth: nat| depth >= next.len() implies #[trigger] find_open(
        program,
        upto as int,
        depth,
    ) == -1 by {
        assert(find_open(program, upto - 1, (depth - 1) as nat) == -1);
    }
    lemma_pending_not_closed(program, stack, upto as int);
    assert forall|j: int|
        0 <= j < upto + 1 && #[trigger] program[j] == Instruction::LoopOpen implies (
    matching_close(program, j) >= upto + 1 <==> next.contains(j as usize)) by {
        if j == upto {
            assert(next[stack.len() as int] == upto);
            lemma_find_close_bounds(program, upto + 1, 0);
        } else if stack.contains(j as usize) {
            let k = stack.index_of(j as usize);
            assert(next[k] == j);
            lemma_find_close_bounds(program, upto + 1, (next.len() - 1 - k) as nat);
        } else if next.contains(j as usize) {
            let k = next.index_of(j as usize);
            assert(stack[k] == j);
        }
    }
}

/// Reading a loop-close pops the innermost waiting loop-open, and the two
/// match each other.
proof fn lemma_pending_close(program: Seq<Instruction>, stack: Seq<usize>, upto: usize)
    requires
        pending(program, stack, upto as int),
        upto < program.len(),
        program[upto as int] == Instruction::LoopClose,
        stack.len() > 0,
    ensures
        pending(program, stack.drop_last(), upto + 1),
        matching_close(program, stack.last() as int) == upto,
        matching_open(program, upto as int) == stack.last(),
{
    let next = stack.drop_last();
    assert(stack[stack.len() - 1] == stack.last());
    assert forall|k: int| 0 <= k < next.len() implies {
        &&& (#[trigger] next[k]) < upto + 1
        &&& program[next[k] as int] == Instruction::LoopOpen
        &&& matching_close(program, next[k] as int) == find_close(
            program,
            upto + 1,
            (next.len() - 1 - k) as nat,
        )
        &&& find_open(program, upto as int, (next.len() - 1 - k) as nat) == next[k]
    } by {
        assert(next[k] == stack[k]);
    }
    assert forall|depth: nat| depth >= next.len() implies #[trigger] find_open(
        program,
        upto as int,
        depth,
    ) == -1 by {
        assert(find_open(program, upto - 1, depth + 1) == -1);
    }
    assert forall|j: int|
        0 <= j < upto + 1 && #[trigger] program[j] == Instruction::LoopOpen implies (
    matching_close(program, j) >= upto + 1 <==> next.contains(j as usize)) by {
        if stack.contains(j as usize) {
            let k = stack.index_of(j as usize);
            if k < next.len() {
                assert(next[k] == j);
                lemma_find_close_bounds(program, upto + 1, (next.len() - 1 - k) as nat);
            } else {
                if next.contains(j as usize) {
                    let l = next.index_of(j as usize);
                    assert(stack[l] == j);
                }
            }
        } else if next.contains(j as usize) {
            let k = next.index_of(j as usize);
            assert(stack[k] == j);
        }
    }
}

/// Reading anything but a bracket changes nothing.
proof fn lemma_pending_other(program: Seq<Instruction>, stack: Seq<usize>, upto: usize)
    requires
        pending(program, stack, upto as int),
        upto < program.len(),
        program[upto as int] != Instruction::LoopOpen,
        program[upto as int] != Instruction::LoopClose,
    ensures
        pending(program, stack, upto + 1),
{
    assert forall|depth: nat| depth >= stack.len() implies #[trigger] find_open(
        program,
        upto as int,
        depth,
    ) == -1 by {
        assert(find_open(program, upto - 1, depth) == -1);
    }
    assert forall|j: int|
        0 <= j < upto + 1 && #[trigger] program[j] == Instruction::LoopOpen implies (
    matching_close(program, j) >= upto + 1 <==> stack.contains(j as usize)) by {
        if stack.contains(j as usize) {
            let k = stack.index_of(j as usize);
            lemma_find_close_bounds(program, upto + 1, (stack.len() - 1 - k) as nat);
        }
    }
}

/// If every loop-open in `from..target` is matched and the one at
/// `target` is not, then `target` is the first unmatched loop-open from
/// `from` on.
proof fn lemma_first_unmatched_open(program: Seq<Instruction>, from: int, target: int)
    requires
        0 <= from <= target <= program.len(),
        forall|i: int|
            from <= i < target && #[trigger] program[i] == Instruction::LoopOpen
                ==> matching_close(program, i) < program.len(),
        target < program.len() ==> program[target] == Instruction::LoopOpen && matching_close(
            program,
            target,
        ) >= program.len(),
    ensures
        first_unmatched_open(program, from) == target,
    decreases target - from,
{
    if from < target {
        assert(program[from] == Instruction::LoopOpen ==> matching_close(program, from)
            < program.len());
        lemma_first_unmatched_open(program, from + 1, target);
    }
}

/// Resolves every loop of the program in one pass with a stack of open
/// positions. The program is accepted exactly if its brackets are
/// balanced; the table then holds the match of every bracket, and the
/// loops are properly nested. Otherwise the error names the first
/// unmatched loop-close, or, if there is none, the first unmatched
/// loop-open.
pub fn resolve(instructions: &[Instruction]) -> (result: Result<JumpTable, UnbalancedLoop>)
    ensures
        match result {
            Ok(table) => {
                &&& balanced(instructions@)
                &&& properly_nested(instructions@)
                &&& table.resolves(instructions@)
            },
            Err(error) => {
                &&& !balanced(instructions@)
                &&& error.position == offending_position(instructions@)
            },
        },
{
    let ghost program = instructions@;
    let mut close_of: Vec<Option<usize>> = Vec::new();
    let mut open_of: Vec<Option<usize>> = Vec::new();
    let mut stack: Vec<usize> = Vec::new();
    let mut i: usize = 0;
    while i < instructions.len()
        invariant
            program == instructions@,
            pending(program, stack@, i as int),
            close_of@.len() == i,
            open_of@.len() == i,
            forall|j: int|
                0 <= j < i ==> #[trigger] open_of@[j] == if program[j] == Instruction::LoopClose {
                    Some(matching_open(program, j) as usize)
                } else {
                    None
                },
            forall|j: int|
                0 <= j < i && #[trigger] program[j] == Instruction::LoopClose ==> matching_open(
                    program,
                    j,
                ) >= 0,
            forall|j: int|
                0 <= j < i ==> #[trigger] close_of@[j] == if program[j] == Instruction::LoopOpen
                    && matching_close(program, j) < i {
                    Some(matching_close(program, j) as usize)
                } else {
                    None
                },
        decreases instructions@.len() - i,
    {
        let ghost closes = close_of@;
        match instructions[i] {
            Instruction::LoopOpen => {
                proof {
                    lemma_pending_open(program, stack@, i);
                }
                stack.push(i);
                close_of.push(None);
                open_of.push(None);
            },
            Instruction::LoopClose => {
                if stack.len() == 0 {
                    proof {
                        assert(matching_open(program, i as int) == -1);
                    }
                    return Err(UnbalancedLoop { position: i });
                }
                proof {
                    lemma_pending_close(program, stack@, i);
                }
                let open = stack.pop().unwrap();
                close_of.set(open, Some(i));
                close_of.push(None);
                open_of.push(Some(open));
            },
            _ => {
                proof {
                    lemma_pending_other(program, stack@, i);
                }
                close_of.push(None);
                open_of.push(None);
            },
        }
        proof {
            assert forall|j: int| 0 <= j < i + 1 implies #[trigger] close_of@[j] == if program[j]
                == Instruction::LoopOpen && matching_close(program, j) < i + 1 {
                Some(matching_close(program, j) as usize)
            } else {
                None
            } by {
                if program[j] == Instruction::LoopOpen {
                    lemma_find_close_bounds(program, j + 1, 0);
                    if matching_close(program, j) == i {
                        lemma_close_matches_back(program, j);
                    }
                }
                if j < i {
                    assert(closes[j] == if program[j] == Instruction::LoopOpen && matching_close(
                        program,
                        j,
                    ) < i {
                        Some(matching_close(program, j) as usize)
                    } else {
                        None
                    });
                }
            }
        }
        i += 1;
    }
    if stack.len() > 0 {
        proof {
            lemma_pending_not_closed(program, stack@, i as int);
            let first = stack@[0] as int;
            assert forall|j: int|
                0 <= j < first && #[trigger] program[j]
                    == Instruction::LoopOpen implies matching_close(program, j)
                < program.len() by {
                if stack@.contains(j as usize) {
                    let k = stack@.index_of(j as usize);
                    assert(stack@[0] <= stack@[k]);
                }
            }
            lemma_first_unmatched_open(program, 0, first);
        }
        return Err(UnbalancedLoop { position: stack[0] });
    }
    proof {
        assert forall|j: int|
            0 <= j < program.len() && #[trigger] program[j]
                == Instruction::LoopOpen implies matching_close(program, j) < program.len() by {
            assert(!stack@.contains(j as usize));
        }
        lemma_matched_loops_nest(program);
    }
    Ok(JumpTable { close_of, open_of })
}

} // verus!
