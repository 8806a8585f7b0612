use brainrust::Command;
use brainrust::Preprocessor;
use brainrust::RawCommand;
use brainrust::preprocess::Error;

fn process_program(
    mut processor: Preprocessor,
    program: &[RawCommand],
) -> Result<Vec<Command>, Error> {
    for command in program {
        processor.process(command)?;
    }
    processor.program()
}

fn run_test(program: &[RawCommand], expected: &[Command]) {
    let processor = Preprocessor::default();
    let result = process_program(processor, program).expect("Optimization failed");
    assert_eq!(expected, result);
}

fn expect_failure(program: &[RawCommand], error: Error) {
    let processor = Preprocessor::default();
    let result = process_program(processor, program);
    assert_eq!(Err(error), result);
}

#[test]
fn pointer_moves() {
    let program = &[
        RawCommand::IncrementPointer,
        RawCommand::IncrementPointer,
        RawCommand::DecrementPointer,
        RawCommand::IncrementPointer,
    ];
    let expected = &[Command::MovePointer { offset: 2 }];
    run_test(program, expected);
}

#[test]
fn pointer_moves_backwards_first() {
    let program = &[
        RawCommand::DecrementPointer,
        RawCommand::DecrementPointer,
        RawCommand::IncrementPointer,
    ];
    let expected = &[Command::MovePointer { offset: -1 }];
    run_test(program, expected);
}

#[test]
fn pointer_moves_negative_offset() {
    let program = &[
        RawCommand::IncrementPointer,
        RawCommand::DecrementPointer,
        RawCommand::DecrementPointer,
    ];
    let expected = &[Command::MovePointer { offset: -1 }];
    run_test(program, expected);
}

#[test]
fn preprocess_modify_data() {
    let program = &[
        RawCommand::IncrementData,
        RawCommand::IncrementData,
        RawCommand::DecrementData,
        RawCommand::IncrementData,
    ];
    let expected = &[Command::ModifyData { modifier: 2 }];
    run_test(program, expected);
}

#[test]
fn modify_data_negative() {
    let program = &[
        RawCommand::DecrementData,
        RawCommand::IncrementData,
        RawCommand::DecrementData,
    ];
    let expected = &[Command::ModifyData { modifier: -1 }];
    run_test(program, expected);
}

#[test]
fn io() {
    let program = &[RawCommand::Input, RawCommand::Output, RawCommand::Input];
    let expected = &[Command::Input, Command::Output, Command::Input];
    run_test(program, expected);
}

#[test]
fn broken_loops() {
    expect_failure(&[RawCommand::LoopStart], Error::OpenLoops(1));
    expect_failure(
        &[RawCommand::LoopStart, RawCommand::LoopStart],
        Error::OpenLoops(2),
    );
    expect_failure(&[RawCommand::LoopEnd], Error::NoLoopStart);
}

#[test]
fn empty_loop() {
    let program = &[RawCommand::LoopStart, RawCommand::LoopEnd];
    let expected = &[
        Command::LoopStart { end_index: 2 },
        Command::LoopEnd { start_index: 0 },
    ];
    run_test(program, expected);
}

#[test]
fn non_empty_loop() {
    let program = &[
        RawCommand::LoopStart,
        RawCommand::Input,
        RawCommand::LoopEnd,
    ];
    let expected = &[
        Command::LoopStart { end_index: 3 },
        Command::Input,
        Command::LoopEnd { start_index: 0 },
    ];
    run_test(program, expected);
}

#[test]
fn empty_nested_loops() {
    let program = &[
        RawCommand::LoopStart,
        RawCommand::LoopStart,
        RawCommand::LoopEnd,
        RawCommand::LoopEnd,
    ];
    let expected = &[
        Command::LoopStart { end_index: 4 },
        Command::LoopStart { end_index: 3 },
        Command::LoopEnd { start_index: 1 },
        Command::LoopEnd { start_index: 0 },
    ];
    run_test(program, expected);
}

#[test]
fn non_empty_nested_loops() {
    let program = &[
        RawCommand::LoopStart,
        RawCommand::Input,
        RawCommand::LoopStart,
        RawCommand::Output,
        RawCommand::LoopEnd,
        RawCommand::LoopEnd,
    ];
    let expected = &[
        Command::LoopStart { end_index: 6 },
        Command::Input,
        Command::LoopStart { end_index: 5 },
        Command::Output,
        Command::LoopEnd { start_index: 2 },
        Command::LoopEnd { start_index: 0 },
    ];
    run_test(program, expected);
}

#[test]
fn noops_are_ignored() {
    let program = &[
        RawCommand::Input,
        RawCommand::Noop,
        RawCommand::Noop,
        RawCommand::Output,
    ];
    let expected = &[Command::Input, Command::Output];
    run_test(program, expected);
}

#[test]
fn empty_input_gives_empty_program() {
    run_test(&[], &[]);
}

#[test]
fn characters_map_to_raw_commands() {
    assert_eq!(RawCommand::IncrementPointer, RawCommand::from('>'));
    assert_eq!(RawCommand::DecrementPointer, RawCommand::from('<'));
    assert_eq!(RawCommand::IncrementData, RawCommand::from('+'));
    assert_eq!(RawCommand::DecrementData, RawCommand::from('-'));
    assert_eq!(RawCommand::Output, RawCommand::from('.'));
    assert_eq!(RawCommand::Input, RawCommand::from(','));
    assert_eq!(RawCommand::LoopStart, RawCommand::from('['));
    assert_eq!(RawCommand::LoopEnd, RawCommand::from(']'));
    assert_eq!(RawCommand::Noop, RawCommand::from('x'));
    assert_eq!(RawCommand::Noop, RawCommand::from(' '));
}
