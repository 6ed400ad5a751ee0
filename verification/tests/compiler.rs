use brainfuck_interpreter::command::{
    BufferOptions, Command, CommandClassic, LoopOptions,
};
use brainfuck_interpreter::error::InterpreterError;

#[test]
fn lexer_maps_every_character() {
    let tokens = CommandClassic::code_to_tokens("+-<>,.[]".to_string()).unwrap();
    assert_eq!(tokens.len(), 8);
    assert_eq!(tokens[0], CommandClassic::Increase);
    assert_eq!(tokens[1], CommandClassic::Decrease);
    assert_eq!(tokens[2], CommandClassic::Left);
    assert_eq!(tokens[3], CommandClassic::Right);
    assert_eq!(tokens[4], CommandClassic::Input);
    assert_eq!(tokens[5], CommandClassic::Output);
    assert_eq!(tokens[6], CommandClassic::OpenLoop(7));
    assert_eq!(tokens[7], CommandClassic::ClosedLoop(8));
}

#[test]
fn lexer_rejects_first_unknown_character() {
    let err = CommandClassic::code_to_tokens("+a b".to_string()).unwrap_err();
    assert_eq!(err, InterpreterError::InstruccionUnknown('a', 2));
    let err = Command::code_to_tokens("+++x".to_string()).unwrap_err();
    assert_eq!(err, InterpreterError::InstruccionUnknown('x', 4));
}

#[test]
fn whitespace_is_fatal_not_skipped() {
    let err = Command::code_to_tokens("+ +".to_string()).unwrap_err();
    assert_eq!(err, InterpreterError::InstruccionUnknown(' ', 2));
}

#[test]
fn folding_merges_runs_with_wrapping_sums() {
    let raw = vec![
        Command::Add(1),
        Command::Add(1),
        Command::Add(1),
        Command::Move(1),
        Command::Move(65535),
        Command::Buffer(BufferOptions::Output),
        Command::Add(255),
    ];
    let folded = Command::add_move_reduce_tokens(&raw);
    assert_eq!(
        folded,
        vec![
            Command::Add(3),
            Command::Move(0),
            Command::Buffer(BufferOptions::Output),
            Command::Add(255),
        ]
    );
}

#[test]
fn folding_twice_changes_nothing() {
    let raw = vec![
        Command::Add(1),
        Command::Move(1),
        Command::Move(1),
        Command::Add(255),
        Command::Add(255),
        Command::Loop(LoopOptions::PointerStart(None), 6),
        Command::Add(1),
        Command::Loop(LoopOptions::PointerEnd(None), 8),
    ];
    let once = Command::add_move_reduce_tokens(&raw);
    let twice = Command::add_move_reduce_tokens(&once);
    assert_eq!(once, twice);
}

#[test]
fn loop_idioms_are_recognized() {
    let open = |p: usize| Command::Loop(LoopOptions::PointerStart(None), p);
    let close = |p: usize| Command::Loop(LoopOptions::PointerEnd(None), p);

    let clear = Command::loop_reduce_tokens(&vec![open(1), Command::Add(255), close(3)]);
    assert_eq!(clear, vec![Command::Loop(LoopOptions::ClearCell, 1)]);

    let clear_up = Command::loop_reduce_tokens(&vec![open(1), Command::Add(1), close(3)]);
    assert_eq!(clear_up, vec![Command::Loop(LoopOptions::ClearCell, 1)]);

    let guarded = Command::loop_reduce_tokens(&vec![open(1), Command::Add(2), close(3)]);
    assert_eq!(guarded, vec![Command::Loop(LoopOptions::AddToReset(2), 1)]);

    let empty = Command::loop_reduce_tokens(&vec![open(1), close(2)]);
    assert_eq!(empty, vec![Command::Loop(LoopOptions::AddToReset(0), 1)]);

    let right = Command::loop_reduce_tokens(&vec![open(1), Command::Move(1), close(3)]);
    assert_eq!(right, vec![Command::Loop(LoopOptions::ToRight, 1)]);

    let left = Command::loop_reduce_tokens(&vec![open(1), Command::Move(65535), close(3)]);
    assert_eq!(left, vec![Command::Loop(LoopOptions::ToLeft, 1)]);

    let transfer = Command::loop_reduce_tokens(&vec![
        open(1),
        Command::Add(255),
        Command::Move(1),
        Command::Add(2),
        Command::Move(65535),
        close(6),
    ]);
    assert_eq!(transfer, vec![Command::Loop(LoopOptions::CutAdd(1, 255, 2), 1)]);

    let transfer_move_first = Command::loop_reduce_tokens(&vec![
        open(1),
        Command::Move(1),
        Command::Add(2),
        Command::Move(65535),
        Command::Add(255),
        close(6),
    ]);
    assert_eq!(
        transfer_move_first,
        vec![Command::Loop(LoopOptions::CutAdd(1, 255, 2), 1)]
    );

    let plain = Command::loop_reduce_tokens(&vec![
        open(1),
        Command::Add(1),
        Command::Move(1),
        close(4),
    ]);
    assert_eq!(
        plain,
        vec![open(1), Command::Add(1), Command::Move(1), close(4)]
    );
}

#[test]
fn linker_connects_matched_pairs() {
    let open = |p: usize| Command::Loop(LoopOptions::PointerStart(None), p);
    let close = |p: usize| Command::Loop(LoopOptions::PointerEnd(None), p);
    let linked = Command::loop_conection(&vec![
        open(1),
        Command::Add(1),
        open(3),
        Command::Move(1),
        close(5),
        close(6),
    ])
    .unwrap();
    assert_eq!(
        linked[0],
        Command::Loop(LoopOptions::PointerStart(Some(5)), 1)
    );
    assert_eq!(
        linked[2],
        Command::Loop(LoopOptions::PointerStart(Some(4)), 3)
    );
    assert_eq!(linked[4], Command::Loop(LoopOptions::PointerEnd(Some(2)), 5));
    assert_eq!(linked[5], Command::Loop(LoopOptions::PointerEnd(Some(0)), 6));
    assert_eq!(linked[1], Command::Add(1));
    assert_eq!(linked[3], Command::Move(1));
}

#[test]
fn lone_open_reports_position_one() {
    let err = Command::code_to_tokens("[".to_string()).unwrap_err();
    assert_eq!(err, InterpreterError::MalformedOpenLoop(1));
}

#[test]
fn lone_close_reports_position_one() {
    let err = Command::code_to_tokens("]".to_string()).unwrap_err();
    assert_eq!(err, InterpreterError::MalformedClosedLoop(1));
}

#[test]
fn first_unmatched_open_is_reported_in_nested_code() {
    let err = Command::code_to_tokens("+[+[+[-]".to_string()).unwrap_err();
    assert_eq!(err, InterpreterError::MalformedOpenLoop(2));
}

#[test]
fn unmatched_close_reports_its_own_position() {
    let err = Command::code_to_tokens("+[-]+]+[".to_string()).unwrap_err();
    assert_eq!(err, InterpreterError::MalformedClosedLoop(6));
}

#[test]
fn token_counter_matches_loop_kinds_loosely() {
    let stream = vec![
        Command::Loop(LoopOptions::PointerStart(None), 1),
        Command::Loop(LoopOptions::PointerStart(Some(9)), 4),
        Command::Loop(LoopOptions::PointerEnd(Some(2)), 7),
        Command::Add(3),
        Command::Add(4),
        Command::Buffer(BufferOptions::Input),
    ];
    let opens = Command::token_counter(
        &stream,
        Command::Loop(LoopOptions::PointerStart(None), 99),
    );
    assert_eq!(opens, 2);
    let closes = Command::token_counter(
        &stream,
        Command::Loop(LoopOptions::PointerEnd(Some(5)), 0),
    );
    assert_eq!(closes, 1);
    let adds = Command::token_counter(&stream, Command::Add(3));
    assert_eq!(adds, 1);
}

#[test]
fn compile_pipeline_emits_idioms_and_links() {
    let tokens = Command::code_to_tokens("+++[-]>[<]".to_string()).unwrap();
    assert_eq!(
        tokens,
        vec![
            Command::Add(3),
            Command::Loop(LoopOptions::ClearCell, 4),
            Command::Move(1),
            Command::Loop(LoopOptions::ToLeft, 8),
        ]
    );
}
