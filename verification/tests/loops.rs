use tapevm::instruction::{tokenize, Instruction};
use tapevm::program::Program;
use tapevm::resolver::{resolve, skip_loop, UnbalancedLoop};

#[test]
fn skip_loop_spans_an_empty_loop() {
    assert_eq!(skip_loop(&tokenize("[]")), Some(2));
}

#[test]
fn skip_loop_stops_at_the_matching_close() {
    assert_eq!(skip_loop(&tokenize("[+]+[-]")), Some(3));
    assert_eq!(skip_loop(&tokenize("[[]]>")), Some(4));
    assert_eq!(skip_loop(&tokenize("[>[-]<[+[.]]]]")), Some(13));
}

#[test]
fn skip_loop_reports_an_unclosed_loop() {
    assert_eq!(skip_loop(&[Instruction::LoopOpen]), None);
    assert_eq!(skip_loop(&tokenize("[[]")), None);
    assert_eq!(skip_loop(&tokenize("[+[-]+[")), None);
}

#[test]
fn resolve_pairs_every_bracket() {
    let table = resolve(&tokenize("[[][]]")).unwrap();
    assert_eq!(
        table.close_of,
        vec![Some(5), Some(2), None, Some(4), None, None]
    );
    assert_eq!(
        table.open_of,
        vec![None, None, Some(1), None, Some(3), Some(0)]
    );
}

#[test]
fn resolve_leaves_other_positions_empty() {
    let table = resolve(&tokenize("+[>-<]."))
        .unwrap();
    assert_eq!(
        table.close_of,
        vec![None, Some(5), None, None, None, None, None]
    );
    assert_eq!(
        table.open_of,
        vec![None, None, None, None, None, Some(1), None]
    );
}

#[test]
fn resolve_accepts_a_program_without_loops() {
    let table = resolve(&tokenize("+-<>.,")).unwrap();
    assert_eq!(table.close_of, vec![None; 6]);
    assert_eq!(table.open_of, vec![None; 6]);
    let empty = resolve(&[]).unwrap();
    assert!(empty.close_of.is_empty());
    assert!(empty.open_of.is_empty());
}

#[test]
fn matches_lie_ahead_and_never_cross() {
    let instructions = tokenize("[[[]][]][][[]]");
    let table = resolve(&instructions).unwrap();
    let opens: Vec<usize> = (0..instructions.len())
        .filter(|i| instructions[*i] == Instruction::LoopOpen)
        .collect();
    for &a in &opens {
        let close_a = table.close_of[a].unwrap();
        assert!(close_a > a);
        assert_eq!(table.open_of[close_a], Some(a));
        for &b in &opens {
            if a < b {
                let close_b = table.close_of[b].unwrap();
                assert!(close_a < b || close_b < close_a);
            }
        }
    }
}

#[test]
fn resolve_rejects_an_unclosed_loop() {
    assert_eq!(
        resolve(&tokenize("[")).unwrap_err(),
        UnbalancedLoop { position: 0 }
    );
    assert_eq!(
        resolve(&tokenize("+[")).unwrap_err(),
        UnbalancedLoop { position: 1 }
    );
    assert_eq!(
        resolve(&tokenize("[[]")).unwrap_err(),
        UnbalancedLoop { position: 0 }
    );
    assert_eq!(
        resolve(&tokenize("[][")).unwrap_err(),
        UnbalancedLoop { position: 2 }
    );
    assert_eq!(
        resolve(&tokenize("[]+[[-][")).unwrap_err(),
        UnbalancedLoop { position: 3 }
    );
}

#[test]
fn resolve_rejects_a_dangling_close() {
    assert_eq!(
        resolve(&tokenize("]")).unwrap_err(),
        UnbalancedLoop { position: 0 }
    );
    assert_eq!(
        resolve(&tokenize("[]]")).unwrap_err(),
        UnbalancedLoop { position: 2 }
    );
    assert_eq!(
        resolve(&tokenize("+[-]>]<[")).unwrap_err(),
        UnbalancedLoop { position: 5 }
    );
}

#[test]
fn a_dangling_close_is_reported_before_an_unclosed_loop() {
    assert_eq!(
        resolve(&tokenize("][")).unwrap_err(),
        UnbalancedLoop { position: 0 }
    );
    assert_eq!(
        resolve(&tokenize("[[]]][")).unwrap_err(),
        UnbalancedLoop { position: 4 }
    );
}

#[test]
fn parse_counts_positions_in_instructions() {
    let error = Program::parse("skip this, then [ never closes").unwrap_err();
    assert_eq!(error, UnbalancedLoop { position: 1 });
}

#[test]
fn parse_keeps_instructions_and_table() {
    let program = Program::parse("a[b-c]d").unwrap();
    assert_eq!(program.len(), 3);
    assert_eq!(
        program.instructions,
        vec![
            Instruction::LoopOpen,
            Instruction::Decrement,
            Instruction::LoopClose
        ]
    );
    assert_eq!(program.jumps.close_of, vec![Some(2), None, None]);
    assert_eq!(program.jumps.open_of, vec![None, None, Some(0)]);
}

#[test]
fn unterminated_program_is_rejected_before_it_runs() {
    assert_eq!(
        Program::parse("[").unwrap_err(),
        UnbalancedLoop { position: 0 }
    );
}
