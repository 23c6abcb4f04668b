use cerebrojoder_rs::{BfInterpreter, Executor, Instruction, Parser, RuntimeError};

fn run(source: &str, input: &[u8]) -> Result<Vec<u8>, RuntimeError> {
    let module = <BfInterpreter as Parser<Instruction>>::parse(source).unwrap();
    <BfInterpreter as Executor<Instruction>>::execute(&module, input)
}

#[test]
fn empty_program_writes_nothing() {
    assert_eq!(run("", &[]), Ok(Vec::new()));
}

#[test]
fn comment_only_program_writes_nothing() {
    assert_eq!(run("hello", &[]), Ok(Vec::new()));
}

#[test]
fn fresh_cell_prints_zero() {
    assert_eq!(run(".", &[]), Ok(vec![0]));
}

#[test]
fn increments_accumulate() {
    assert_eq!(run("+++++.", &[]), Ok(vec![5]));
}

#[test]
fn incrementing_256_times_wraps_to_zero() {
    let source = format!("{}.", "+".repeat(256));
    assert_eq!(run(&source, &[]), Ok(vec![0]));
}

#[test]
fn incrementing_255_times_reaches_255() {
    let source = format!("{}.", "+".repeat(255));
    assert_eq!(run(&source, &[]), Ok(vec![255]));
}

#[test]
fn decrementing_zero_wraps_to_255() {
    assert_eq!(run("-.", &[]), Ok(vec![255]));
}

#[test]
fn consecutive_outputs_print_each_time() {
    assert_eq!(run("+..", &[]), Ok(vec![1, 1]));
}

#[test]
fn loop_moves_value_across_cells() {
    assert_eq!(run("++[>++[>+<-]<-]>>.", &[]), Ok(vec![4]));
}

#[test]
fn loop_with_zero_cell_is_skipped() {
    assert_eq!(run("[+++.]", &[]), Ok(Vec::new()));
}

#[test]
fn hello_world_prints_exactly() {
    let source = "++++++++[>++++[>++>+++>+++>+<<<<-]>+>+>->>+[<]<-]>>.>---.+++++++..+++.>>.<-.<.+++.------.--------.>>+.>++.";
    assert_eq!(run(source, &[]), Ok(b"Hello World!\n".to_vec()));
}

#[test]
fn echo_program_copies_input_until_eof_sentinel() {
    assert_eq!(run(",[.,]", b"abc"), Ok(b"abc".to_vec()));
}

#[test]
fn input_byte_lands_in_current_cell() {
    assert_eq!(run(",.", b"A"), Ok(vec![65]));
}

#[test]
fn exhausted_input_reads_zero() {
    assert_eq!(run(",.", &[]), Ok(vec![0]));
}

#[test]
fn second_read_after_input_end_reads_zero() {
    assert_eq!(run(",.,.", b"A"), Ok(vec![65, 0]));
}

#[test]
fn moving_left_from_cell_zero_is_out_of_bounds() {
    assert_eq!(run("<", &[]), Err(RuntimeError::PointerOutOfBounds));
}

#[test]
fn moving_right_past_the_last_cell_is_out_of_bounds() {
    let source = ">".repeat(30000);
    assert_eq!(run(&source, &[]), Err(RuntimeError::PointerOutOfBounds));
}

#[test]
fn last_cell_is_reachable() {
    let source = format!("{}.", ">".repeat(29999));
    assert_eq!(run(&source, &[]), Ok(vec![0]));
}

#[test]
fn pointer_can_move_back_after_moving_forward() {
    assert_eq!(run("+><.", &[]), Ok(vec![1]));
}
