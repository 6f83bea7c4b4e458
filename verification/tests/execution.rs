use brainfrusk::Compiler;
use brainfrusk::Interpreter;
use brainfrusk::RuntimeError;
use brainfrusk::interpreter::RunStatus;

fn run_to_end(source: &str, tape_size: usize, input: Vec<u8>) -> (RunStatus, Interpreter) {
    let code = Compiler::compile(source).expect("balanced program compiles");
    let mut interp = Interpreter::new(code, vec![0u8; tape_size], input);
    let status = interp.run(1_000_000);
    (status, interp)
}

#[test]
fn counted_transfer_loop() {
    // two plus five transferred: cell 0 ends at 7, cell 1 drained to 0
    let (status, interp) = run_to_end("++>+++++[<+>-]", 32, Vec::new());
    assert_eq!(status, RunStatus::Halted);
    assert_eq!(interp.memory[0], 7);
    assert_eq!(interp.memory[1], 0);
    assert_eq!(interp.data_ptr, 1);
    assert!(interp.output.is_empty());
}

#[test]
fn hello_world_emits_exact_bytes() {
    let source = "++++++++[>++++[>++>+++>+++>+<<<<-]>+>+>->>+[<]<-]>>.>---.+++++++..+++.>>.<-.<.+++.------.--------.>>+.>++.";
    let (status, interp) = run_to_end(source, 32, Vec::new());
    assert_eq!(status, RunStatus::Halted);
    assert_eq!(interp.output, b"Hello World!\n".to_vec());
}

#[test]
fn optimized_and_unoptimized_runs_agree() {
    let hello = "++++++++[>++++[>++>+++>+++>+<<<<-]>+>+>->>+[<]<-]>>.>---.+++++++..+++.>>.<-.<.+++.------.--------.>>+.>++.";
    for source in ["++>+++++[<+>-]", "+++[->++<]>", "--[+]", ",>,<.>.", hello] {
        let opt = Compiler::compile(source).expect("balanced program compiles");
        let raw = Compiler::compile_unoptimized(source).expect("balanced program compiles");
        let mut a = Interpreter::new(opt, vec![0u8; 16], vec![3, 250]);
        let mut b = Interpreter::new(raw, vec![0u8; 16], vec![3, 250]);
        assert_eq!(a.run(1_000_000), RunStatus::Halted);
        assert_eq!(b.run(1_000_000), RunStatus::Halted);
        assert_eq!(a.memory, b.memory);
        assert_eq!(a.output, b.output);
        assert_eq!(a.input, b.input);
    }
}

#[test]
fn input_bytes_are_consumed_in_order() {
    let (status, interp) = run_to_end(",.>,.", 4, vec![65, 66]);
    assert_eq!(status, RunStatus::Halted);
    assert_eq!(interp.output, vec![65, 66]);
    assert_eq!(interp.memory[0], 65);
    assert_eq!(interp.memory[1], 66);
    assert!(interp.input.is_empty());
}

#[test]
fn exhausted_input_fails_the_run() {
    let (status, _) = run_to_end(",", 4, Vec::new());
    assert_eq!(status, RunStatus::Failed(RuntimeError::InputExhausted));
}

#[test]
fn moving_left_off_the_tape_fails() {
    let (status, interp) = run_to_end("<", 4, Vec::new());
    assert_eq!(status, RunStatus::Failed(RuntimeError::OutOfRange));
    assert_eq!(interp.data_ptr, 0);
}

#[test]
fn moving_right_off_the_tape_fails() {
    let (status, _) = run_to_end(">>", 2, Vec::new());
    assert_eq!(status, RunStatus::Failed(RuntimeError::OutOfRange));
}

#[test]
fn empty_tape_rejects_cell_access() {
    let (status, _) = run_to_end("+", 0, Vec::new());
    assert_eq!(status, RunStatus::Failed(RuntimeError::OutOfRange));
}

#[test]
fn cell_arithmetic_wraps_modulo_256() {
    let (status, interp) = run_to_end("-", 1, Vec::new());
    assert_eq!(status, RunStatus::Halted);
    assert_eq!(interp.memory[0], 255);

    let many_plus = "+".repeat(300);
    let (status, interp) = run_to_end(&many_plus, 1, Vec::new());
    assert_eq!(status, RunStatus::Halted);
    assert_eq!(interp.memory[0], 44);
}

#[test]
fn skipped_loop_body_never_runs() {
    // cell 0 is zero at the open bracket, so the body must be skipped
    let (status, interp) = run_to_end("[+++.]>+", 4, Vec::new());
    assert_eq!(status, RunStatus::Halted);
    assert_eq!(interp.memory[0], 0);
    assert_eq!(interp.memory[1], 1);
    assert!(interp.output.is_empty());
}

#[test]
fn unbounded_loop_reports_still_running_and_resumes() {
    let code = Compiler::compile("+[]").expect("balanced program compiles");
    let mut interp = Interpreter::new(code, vec![0u8; 4], Vec::new());
    assert_eq!(interp.run(1000), RunStatus::StillRunning);
    assert_eq!(interp.run(1000), RunStatus::StillRunning);
}

#[test]
fn halted_run_stays_halted_when_resumed() {
    let code = Compiler::compile("+").expect("balanced program compiles");
    let mut interp = Interpreter::new(code, vec![0u8; 4], Vec::new());
    assert_eq!(interp.run(10), RunStatus::Halted);
    assert_eq!(interp.run(10), RunStatus::Halted);
    assert_eq!(interp.memory[0], 1);
}

#[test]
fn empty_program_halts_at_once() {
    let (status, interp) = run_to_end("", 4, Vec::new());
    assert_eq!(status, RunStatus::Halted);
    assert_eq!(interp.memory, vec![0u8; 4]);
    assert!(interp.output.is_empty());
}

#[test]
fn new_interpreter_starts_at_zero() {
    let interp = Interpreter::new(Vec::new(), vec![9u8; 3], vec![1]);
    assert_eq!(interp.instruction_ptr, 0);
    assert_eq!(interp.data_ptr, 0);
    assert!(interp.output.is_empty());
    assert_eq!(interp.memory, vec![9, 9, 9]);
    assert_eq!(interp.input, vec![1]);
}

#[test]
fn data_reads_the_current_cell() {
    let mut interp = Interpreter::new(Vec::new(), vec![5u8, 8u8], Vec::new());
    assert_eq!(interp.data(), 5);
    interp.data_ptr = 1;
    assert_eq!(interp.data(), 8);
}

#[test]
fn output_collects_bytes_in_order() {
    let (status, interp) = run_to_end("+.+.+.", 1, Vec::new());
    assert_eq!(status, RunStatus::Halted);
    assert_eq!(interp.output, vec![1, 2, 3]);
}
