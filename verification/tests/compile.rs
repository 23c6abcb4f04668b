use cerebrojoder_rs::{BfInterpreter, CompileError, Instruction, Parser, CODESIZE, HEAPSIZE};

fn parse(source: &str) -> Result<cerebrojoder_rs::Module<Instruction>, CompileError> {
    <BfInterpreter as Parser<Instruction>>::parse(source)
}

#[test]
fn get_instruction_maps_each_operator() {
    assert_eq!(Instruction::get_instruction('<', 7), Instruction::Backward(7));
    assert_eq!(Instruction::get_instruction('>', 7), Instruction::Forward(7));
    assert_eq!(Instruction::get_instruction('-', 7), Instruction::Subtract(7));
    assert_eq!(Instruction::get_instruction('+', 7), Instruction::Add(7));
    assert_eq!(Instruction::get_instruction('[', 1), Instruction::Land);
    assert_eq!(Instruction::get_instruction(']', 1), Instruction::Jump);
    assert_eq!(Instruction::get_instruction('.', 1), Instruction::Write);
    assert_eq!(Instruction::get_instruction(',', 1), Instruction::Read);
    assert_eq!(Instruction::get_instruction('x', 1), Instruction::Nop);
}

#[test]
fn module_has_fixed_capacity_backing_arrays() {
    let module = parse("+").unwrap();
    assert_eq!(module.code_segment.len(), CODESIZE);
    assert_eq!(module.jump_lookup.len(), HEAPSIZE);
    assert_eq!(module.code_length, 1);
    assert_eq!(module.code_segment[0], Instruction::Add(1));
}

#[test]
fn short_run_folds_to_one_instruction() {
    let module = parse("+++++").unwrap();
    assert_eq!(module.code_length, 1);
    assert_eq!(module.code_segment[0], Instruction::Add(5));
}

#[test]
fn long_run_truncates_at_255_and_counts_sum() {
    let source = "+".repeat(300);
    let module = parse(&source).unwrap();
    assert_eq!(module.code_length, 2);
    assert_eq!(module.code_segment[0], Instruction::Add(255));
    assert_eq!(module.code_segment[1], Instruction::Add(45));
}

#[test]
fn exact_255_run_folds_to_one_instruction() {
    let source = ">".repeat(255);
    let module = parse(&source).unwrap();
    assert_eq!(module.code_length, 1);
    assert_eq!(module.code_segment[0], Instruction::Forward(255));
}

#[test]
fn adjacent_runs_of_different_operators_stay_separate() {
    let module = parse("++--<<>>").unwrap();
    assert_eq!(module.code_length, 4);
    assert_eq!(module.code_segment[0], Instruction::Add(2));
    assert_eq!(module.code_segment[1], Instruction::Subtract(2));
    assert_eq!(module.code_segment[2], Instruction::Backward(2));
    assert_eq!(module.code_segment[3], Instruction::Forward(2));
}

#[test]
fn output_and_input_do_not_fold() {
    let module = parse("...,,").unwrap();
    assert_eq!(module.code_length, 5);
    assert_eq!(module.code_segment[0], Instruction::Write);
    assert_eq!(module.code_segment[1], Instruction::Write);
    assert_eq!(module.code_segment[2], Instruction::Write);
    assert_eq!(module.code_segment[3], Instruction::Read);
    assert_eq!(module.code_segment[4], Instruction::Read);
}

#[test]
fn comments_emit_no_instruction() {
    let module = parse("a+b+c").unwrap();
    assert_eq!(module.code_length, 2);
    assert_eq!(module.code_segment[0], Instruction::Add(1));
    assert_eq!(module.code_segment[1], Instruction::Add(1));
}

#[test]
fn comment_only_program_compiles_to_length_zero() {
    let module = parse("hello").unwrap();
    assert_eq!(module.code_length, 0);
}

#[test]
fn jump_table_pairs_brackets_symmetrically() {
    let module = parse("[[]]").unwrap();
    assert_eq!(module.code_length, 4);
    assert_eq!(module.code_segment[0], Instruction::Land);
    assert_eq!(module.code_segment[1], Instruction::Land);
    assert_eq!(module.code_segment[2], Instruction::Jump);
    assert_eq!(module.code_segment[3], Instruction::Jump);
    assert_eq!(module.jump_lookup[0], 3);
    assert_eq!(module.jump_lookup[3], 0);
    assert_eq!(module.jump_lookup[1], 2);
    assert_eq!(module.jump_lookup[2], 1);
    for i in 0..module.code_length {
        match module.code_segment[i] {
            Instruction::Land => {
                let j = module.jump_lookup[i];
                assert!(i < j);
                assert_eq!(module.jump_lookup[j], i);
            }
            Instruction::Jump => {
                let j = module.jump_lookup[i];
                assert!(j < i);
                assert_eq!(module.jump_lookup[j], i);
            }
            _ => {}
        }
    }
}

#[test]
fn sibling_loops_pair_with_their_own_ends() {
    let module = parse("[][]").unwrap();
    assert_eq!(module.code_length, 4);
    assert_eq!(module.jump_lookup[0], 1);
    assert_eq!(module.jump_lookup[1], 0);
    assert_eq!(module.jump_lookup[2], 3);
    assert_eq!(module.jump_lookup[3], 2);
}

#[test]
fn lone_open_bracket_is_rejected() {
    assert!(matches!(parse("["), Err(CompileError::UnmatchedOpenBracket)));
}

#[test]
fn lone_close_bracket_is_rejected() {
    assert!(matches!(parse("]"), Err(CompileError::UnmatchedCloseBracket)));
}

#[test]
fn close_before_open_is_rejected() {
    assert!(matches!(parse("][ "), Err(CompileError::UnmatchedCloseBracket)));
}

#[test]
fn too_many_instructions_are_rejected() {
    let source = "[".repeat(CODESIZE + 1);
    assert!(matches!(parse(&source), Err(CompileError::SourceTooLarge)));
}

#[test]
fn full_capacity_of_unclosed_brackets_reports_the_open_one() {
    let source = "[".repeat(CODESIZE);
    assert!(matches!(parse(&source), Err(CompileError::UnmatchedOpenBracket)));
}

fn parse_ok(source: &str) -> cerebrojoder_rs::Module<Instruction> {
    match parse(source) {
        Ok(module) => module,
        Err(e) => panic!("expected successful compilation, got {:?}", e),
    }
}

#[test]
fn hello_world_compiles_with_matched_brackets() {
    let module = parse_ok(
        "++++++++[>++++[>++>+++>+++>+<<<<-]>+>+>->>+[<]<-]>>.>---.+++++++..+++.>>.<-.<.+++.------.--------.>>+.>++.",
    );
    for i in 0..module.code_length {
        match module.code_segment[i] {
            Instruction::Land => assert_eq!(module.jump_lookup[module.jump_lookup[i]], i),
            Instruction::Jump => assert_eq!(module.jump_lookup[module.jump_lookup[i]], i),
            Instruction::Nop => panic!("populated slot {} holds a Nop", i),
            _ => {}
        }
    }
}
