use brainfuck_interpreter::command::{BufferOptions, Command, LoopOptions};
use brainfuck_interpreter::error::InterpreterError;
use brainfuck_interpreter::interpreter::Interpreter;

fn run_source(code: &str, args: Option<Vec<u8>>) -> Result<Vec<u8>, InterpreterError> {
    let tokens = Command::code_to_tokens(code.to_string())?;
    let mut machine = Interpreter::new();
    machine.execute(tokens, args)?;
    machine.get_output_as_vec()
}

#[test]
fn three_increments_output_three() {
    assert_eq!(run_source("+++.", None).unwrap(), vec![3]);
}

#[test]
fn input_is_echoed() {
    assert_eq!(run_source(",.", Some(vec![65])).unwrap(), vec![65]);
}

#[test]
fn input_without_queue_is_an_error() {
    assert_eq!(run_source(",.", None).unwrap_err(), InterpreterError::MissingArgs);
}

#[test]
fn input_pops_the_last_supplied_byte_first() {
    assert_eq!(
        run_source(",>,>,.<.<.", Some(vec![1, 2, 3])).unwrap(),
        vec![1, 2, 3]
    );
}

#[test]
fn exhausted_queue_reads_zero_not_error() {
    assert_eq!(run_source(",.,.,.", Some(vec![9])).unwrap(), vec![9, 0, 0]);
}

#[test]
fn clear_loop_leaves_cell_zero_and_no_output() {
    assert_eq!(run_source("+[-]", None).unwrap(), vec![]);
    assert_eq!(run_source("+[-].", None).unwrap(), vec![0]);
    assert_eq!(run_source("+++[+].", None).unwrap(), vec![0]);
}

#[test]
fn cell_wraps_at_both_ends() {
    assert_eq!(run_source("-.", None).unwrap(), vec![255]);
    let mut code = String::new();
    for _ in 0..256 {
        code.push('+');
    }
    code.push('.');
    assert_eq!(run_source(&code, None).unwrap(), vec![0]);
}

#[test]
fn cell_at_255_incremented_once_is_zero() {
    let tokens = vec![
        Command::Add(255),
        Command::Add(1),
        Command::Buffer(BufferOptions::Output),
    ];
    let mut machine = Interpreter::new();
    machine.execute(tokens, None).unwrap();
    assert_eq!(machine.get_output_as_vec().unwrap(), vec![0]);
}

#[test]
fn pointer_at_65535_moved_right_once_is_zero() {
    let tokens = vec![
        Command::Add(7),
        Command::Move(65535),
        Command::Move(1),
        Command::Buffer(BufferOptions::Output),
    ];
    let mut machine = Interpreter::new();
    machine.execute(tokens, None).unwrap();
    assert_eq!(machine.get_output_as_vec().unwrap(), vec![7]);
}

#[test]
fn optimized_and_naive_streams_agree_on_clear_loop() {
    let optimized = run_source("+++[-].", None).unwrap();
    let naive = vec![
        Command::Add(1),
        Command::Add(1),
        Command::Add(1),
        Command::Loop(LoopOptions::PointerStart(Some(5)), 4),
        Command::Add(255),
        Command::Loop(LoopOptions::PointerEnd(Some(3)), 6),
        Command::Buffer(BufferOptions::Output),
    ];
    let mut machine = Interpreter::new();
    machine.execute(naive, None).unwrap();
    assert_eq!(machine.get_output_as_vec().unwrap(), optimized);
}

#[test]
fn optimized_and_naive_streams_agree_on_scan() {
    let optimized = run_source("+>+>>++<<<[>]>.", None).unwrap();
    assert_eq!(optimized, vec![2]);
    let naive = vec![
        Command::Add(1),
        Command::Move(1),
        Command::Add(1),
        Command::Move(1),
        Command::Move(1),
        Command::Add(2),
        Command::Move(65535),
        Command::Move(65535),
        Command::Move(65535),
        Command::Loop(LoopOptions::PointerStart(Some(11)), 10),
        Command::Move(1),
        Command::Loop(LoopOptions::PointerEnd(Some(9)), 12),
        Command::Move(1),
        Command::Buffer(BufferOptions::Output),
    ];
    let mut machine = Interpreter::new();
    machine.execute(naive, None).unwrap();
    assert_eq!(machine.get_output_as_vec().unwrap(), optimized);
}

#[test]
fn scan_left_wraps_around_the_tape_edge() {
    assert_eq!(run_source("++<++[<]>.", None).unwrap(), vec![2]);
}

#[test]
fn transfer_loop_multiplies_into_offset_cell() {
    assert_eq!(run_source("++[->++<]>.", None).unwrap(), vec![4]);
    assert_eq!(run_source("++[>++<-]>.", None).unwrap(), vec![4]);
}

#[test]
fn guarded_drain_detects_unreachable_zero() {
    let err = run_source("+[--]", None).unwrap_err();
    assert_eq!(err, InterpreterError::InfinityLoopFound(2, 1, 0));
}

#[test]
fn empty_loop_on_nonzero_cell_is_detected() {
    let err = run_source("+[]", None).unwrap_err();
    assert_eq!(err, InterpreterError::InfinityLoopFound(2, 1, 0));
}

#[test]
fn scan_on_full_tape_is_detected() {
    let mut tokens = Vec::new();
    for _ in 0..65536 {
        tokens.push(Command::Add(1));
        tokens.push(Command::Move(1));
    }
    tokens.push(Command::Loop(LoopOptions::ToRight, 1));
    let mut machine = Interpreter::new();
    let err = machine.execute(tokens, None).unwrap_err();
    assert_eq!(err, InterpreterError::InfinityLoopMemoryFull(1));
}

#[test]
fn unlinked_loop_instruction_is_a_defect_error() {
    let tokens = vec![Command::Loop(LoopOptions::PointerStart(None), 1)];
    let mut machine = Interpreter::new();
    let err = machine.execute(tokens, None).unwrap_err();
    assert_eq!(err, InterpreterError::UnconnectedLoops);
}

#[test]
fn run_code_without_tokens_is_refused() {
    let mut machine = Interpreter::new();
    assert_eq!(machine.run_code().unwrap_err(), InterpreterError::TokensUnknown);
}

#[test]
fn second_load_of_tokens_is_refused() {
    let mut machine = Interpreter::new();
    machine.execute(vec![Command::Add(1)], None).unwrap();
    let err = machine.execute(vec![Command::Add(1)], None).unwrap_err();
    assert_eq!(err, InterpreterError::TokensOverwritten);
}

#[test]
fn second_load_of_args_is_refused() {
    let mut machine = Interpreter::new();
    machine.execute(vec![Command::Add(1)], Some(vec![1])).unwrap();
    let err = machine
        .execute(vec![Command::Add(1)], Some(vec![2]))
        .unwrap_err();
    assert_eq!(err, InterpreterError::ArgsOverwritten);
}

#[test]
fn rerunning_a_completed_machine_keeps_its_output() {
    let tokens = Command::code_to_tokens("+++.".to_string()).unwrap();
    let mut machine = Interpreter::new();
    machine.execute(tokens, None).unwrap();
    assert_eq!(machine.get_output_as_vec().unwrap(), vec![3]);
    assert_eq!(machine.run_code(), Ok(()));
    assert_eq!(machine.get_output_as_vec().unwrap(), vec![3]);
}

#[test]
fn output_before_any_run_is_refused() {
    let machine = Interpreter::new();
    assert_eq!(
        machine.get_output_as_vec().unwrap_err(),
        InterpreterError::OutputUnknown
    );
    let mut loaded = Interpreter::new();
    loaded.set_tokens(vec![Command::Add(1)]).unwrap();
    assert_eq!(
        loaded.get_output_as_string().unwrap_err(),
        InterpreterError::OutputUnknown
    );
}

#[test]
fn output_renders_as_text() {
    let tokens = Command::code_to_tokens(
        "++++++++[->++++++++<]>+.".to_string(),
    )
    .unwrap();
    let mut machine = Interpreter::new();
    machine.execute(tokens, None).unwrap();
    assert_eq!(machine.get_output_as_vec().unwrap(), vec![65]);
    assert_eq!(machine.get_output_as_string().unwrap(), "A".to_string());
}

#[test]
fn invalid_utf8_output_renders_lossily() {
    let mut machine = Interpreter::new();
    machine.execute(vec![Command::Add(255), Command::Buffer(BufferOptions::Output)], None).unwrap();
    assert_eq!(machine.get_output_as_string().unwrap(), "\u{FFFD}".to_string());
}

#[test]
fn optimized_and_naive_streams_agree_on_transfer() {
    let optimized = run_source("++[->+++<]>.", None).unwrap();
    assert_eq!(optimized, vec![6]);
    let naive = vec![
        Command::Add(1),
        Command::Add(1),
        Command::Loop(LoopOptions::PointerStart(Some(9)), 3),
        Command::Add(255),
        Command::Move(1),
        Command::Add(1),
        Command::Add(1),
        Command::Add(1),
        Command::Move(65535),
        Command::Loop(LoopOptions::PointerEnd(Some(2)), 10),
        Command::Move(1),
        Command::Buffer(BufferOptions::Output),
    ];
    let mut machine = Interpreter::new();
    machine.execute(naive, None).unwrap();
    assert_eq!(machine.get_output_as_vec().unwrap(), optimized);
}
