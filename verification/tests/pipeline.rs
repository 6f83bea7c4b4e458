use brainfrusk::Compiler;
use brainfrusk::Instruction;

#[test]
fn strip_drops_whitespace() {
    let s = Compiler::strip_source_of_whitespace_and_comments("+ +\n>\t<\r\n-");
    assert_eq!(s, "++><-");
}

#[test]
fn strip_drops_line_comments() {
    let s = Compiler::strip_source_of_whitespace_and_comments("++ # add two\n-- # and back\n>");
    assert_eq!(s, "++-->");
}

#[test]
fn strip_keeps_stray_glyphs() {
    let s = Compiler::strip_source_of_whitespace_and_comments("a+b\nc-d");
    assert_eq!(s, "a+bc-d");
}

#[test]
fn strip_comment_ends_at_line_break() {
    let s = Compiler::strip_source_of_whitespace_and_comments("#only a comment\n+");
    assert_eq!(s, "+");
}

#[test]
fn strip_is_idempotent_on_samples() {
    for src in ["+ + # note\n>><\t,.", "", "# all comment", "plain"] {
        let once = Compiler::strip_source_of_whitespace_and_comments(src);
        let twice = Compiler::strip_source_of_whitespace_and_comments(&once);
        assert_eq!(twice, once);
    }
}

#[test]
fn tokenize_maps_each_character() {
    let toks = Compiler::tokenize_string("><+-,.[]x");
    assert_eq!(
        toks,
        vec![
            Instruction::IncrementDataPtr,
            Instruction::DecrementDataPtr,
            Instruction::IncrementByte,
            Instruction::DecrementByte,
            Instruction::InputByte,
            Instruction::OutputByte,
            Instruction::LoopOpen { close_location: 6 },
            Instruction::LoopClose { open_location: 7 },
            Instruction::NOP,
        ]
    );
}

#[test]
fn optimize_folds_runs() {
    let mut toks = Compiler::tokenize_string("+++>>--<<");
    Compiler::optimize_instructions(&mut toks);
    assert_eq!(
        toks,
        vec![
            Instruction::QuickIncrementByte(3),
            Instruction::QuickIncrementDataPtr(2),
            Instruction::QuickDecrementByte(2),
            Instruction::QuickDecrementDataPtr(2),
        ]
    );
}

#[test]
fn optimize_passes_io_and_brackets_through() {
    let mut toks = Compiler::tokenize_string("+,.[-]");
    Compiler::optimize_instructions(&mut toks);
    assert_eq!(
        toks,
        vec![
            Instruction::QuickIncrementByte(1),
            Instruction::InputByte,
            Instruction::OutputByte,
            Instruction::LoopOpen { close_location: 3 },
            Instruction::QuickDecrementByte(1),
            Instruction::LoopClose { open_location: 5 },
        ]
    );
}

#[test]
fn optimize_drops_stray_noops() {
    let mut toks = Compiler::tokenize_string("+a+");
    Compiler::optimize_instructions(&mut toks);
    // a stray glyph ends the pending run, so the two increments stay apart
    assert_eq!(
        toks,
        vec![Instruction::QuickIncrementByte(1), Instruction::QuickIncrementByte(1)]
    );
}

#[test]
fn reindex_overwrites_placeholders() {
    let mut toks = vec![
        Instruction::QuickIncrementByte(2),
        Instruction::LoopOpen { close_location: 2 },
        Instruction::LoopClose { open_location: 5 },
    ];
    Compiler::reindex_branches(&mut toks);
    assert_eq!(
        toks,
        vec![
            Instruction::QuickIncrementByte(2),
            Instruction::LoopOpen { close_location: 1 },
            Instruction::LoopClose { open_location: 2 },
        ]
    );
}

#[test]
fn folded_bytecode_of_scenario_program() {
    // `++[--]++` folds to five opcodes: counted increment of 2, loop-open,
    // counted decrement of 2, loop-close, counted increment of 2
    let code = Compiler::compile("++[--]++").expect("balanced program compiles");
    assert_eq!(
        code,
        vec![
            Instruction::QuickIncrementByte(2),
            Instruction::LoopOpen { close_location: 3 },
            Instruction::QuickDecrementByte(2),
            Instruction::LoopClose { open_location: 1 },
            Instruction::QuickIncrementByte(2),
        ]
    );
}

#[test]
fn resolved_targets_are_mutually_symmetric() {
    let code = Compiler::compile("[[][]]+[]").expect("balanced program compiles");
    for (idx, op) in code.iter().enumerate() {
        if let Some(partner) = op.bracket_location() {
            let back = code[partner].bracket_location().expect("partner is a bracket");
            assert_eq!(back, idx);
            match op {
                Instruction::LoopOpen { .. } => assert!(idx < partner),
                Instruction::LoopClose { .. } => assert!(partner < idx),
                _ => panic!("bracket_location on a non-bracket"),
            }
        }
    }
}

#[test]
fn unbalanced_open_fails_compilation() {
    assert!(Compiler::compile("[").is_err());
    assert!(Compiler::compile_unoptimized("[").is_err());
}

#[test]
fn unbalanced_close_fails_compilation() {
    assert!(Compiler::compile("]").is_err());
    assert!(Compiler::compile_unoptimized("]").is_err());
}

#[test]
fn unbalanced_mixed_fails_compilation() {
    assert!(Compiler::compile("][").is_err());
    assert!(Compiler::compile("+[+[-]").is_err());
    assert!(Compiler::compile("[-]]").is_err());
}

#[test]
fn balanced_sources_compile() {
    for src in ["", "+-<>,.", "[]", "[[][[]]]", "++[--]++", "a#b"] {
        assert!(Compiler::compile(src).is_ok());
        assert!(Compiler::compile_unoptimized(src).is_ok());
    }
}

#[test]
fn compile_unoptimized_keeps_primitive_opcodes() {
    let code = Compiler::compile_unoptimized("++[-]").expect("balanced program compiles");
    assert_eq!(
        code,
        vec![
            Instruction::IncrementByte,
            Instruction::IncrementByte,
            Instruction::LoopOpen { close_location: 4 },
            Instruction::DecrementByte,
            Instruction::LoopClose { open_location: 2 },
        ]
    );
}

#[test]
fn parse_str_matches_compile() {
    let a = Instruction::parse_str("++>+++++[<+>-]").expect("balanced program compiles");
    let b = Compiler::compile("++>+++++[<+>-]").expect("balanced program compiles");
    assert_eq!(a, b);
    assert!(Instruction::parse_str("[").is_err());
}

#[test]
fn bracket_location_reads_the_stored_target() {
    assert_eq!(Instruction::LoopOpen { close_location: 5 }.bracket_location(), Some(5));
    assert_eq!(Instruction::LoopClose { open_location: 9 }.bracket_location(), Some(9));
    assert_eq!(Instruction::NOP.bracket_location(), None);
    assert_eq!(Instruction::QuickIncrementByte(3).bracket_location(), None);
}
