use brainrust::Command;
use brainrust::Interpreter;
use brainrust::ScriptedInputOutput;
use brainrust::interpret::Error;
use brainrust::ChannelError;

fn quiet() -> ScriptedInputOutput {
    ScriptedInputOutput::new(Vec::new())
}

#[test]
fn move_pointer() {
    let mut interpreter = Interpreter::new(quiet(), 10);
    interpreter
        .execute(&[
            Command::MovePointer { offset: 5 },
            Command::MovePointer { offset: -3 },
        ])
        .expect("Failed to execute");
    assert_eq!(2, interpreter.current_pointer());
    assert_eq!(0, interpreter.current_data());
}

#[test]
fn move_past_tape_end() {
    let mut interpreter = Interpreter::new(quiet(), 1);
    let result = interpreter.execute(&[Command::MovePointer { offset: 1 }]);
    assert!(matches!(result, Err(Error::OutOfBounds)));
}

#[test]
fn move_before_tape_beginning() {
    let mut interpreter = Interpreter::new(quiet(), 1);
    let result = interpreter.execute(&[Command::MovePointer { offset: -1 }]);
    assert!(matches!(result, Err(Error::OutOfBounds)));
}

#[test]
fn interpret_modify_data() {
    let mut interpreter = Interpreter::new(quiet(), 10);
    interpreter
        .execute(&[
            Command::ModifyData { modifier: 5 },
            Command::ModifyData { modifier: -3 },
        ])
        .expect("Failed to execute");
    assert_eq!(0, interpreter.current_pointer());
    assert_eq!(2, interpreter.current_data());
}

#[test]
fn modify_data_loop_around() {
    let mut interpreter = Interpreter::new(quiet(), 10);
    interpreter
        .execute(&[Command::ModifyData { modifier: 567 }])
        .expect("Failed to execute");
    assert_eq!(55, interpreter.current_data());
}

#[test]
fn modify_data_loop_around_negative() {
    let mut interpreter = Interpreter::new(quiet(), 10);
    interpreter
        .execute(&[Command::ModifyData { modifier: -567 }])
        .expect("Failed to execute");
    assert_eq!(201, interpreter.current_data());
}

#[test]
fn input() {
    let io = ScriptedInputOutput::new(vec![42]);
    let mut interpreter = Interpreter::new(io, 10);
    interpreter
        .execute(&[Command::Input])
        .expect("Failed to execute");
    assert_eq!(0, interpreter.current_pointer());
    assert_eq!(42, interpreter.current_data());
}

#[test]
fn output() {
    let mut interpreter = Interpreter::new(quiet(), 10);
    interpreter
        .execute(&[Command::ModifyData { modifier: 42 }, Command::Output])
        .expect("Failed to execute");
    assert_eq!(0, interpreter.current_pointer());
    assert_eq!(42, interpreter.current_data());
    assert_eq!(vec![42], interpreter.io.outputs);
}

#[test]
fn loop_skips_if_zero() {
    let mut interpreter = Interpreter::new(quiet(), 10);
    interpreter
        .execute(&[
            Command::LoopStart { end_index: 2 },
            Command::ModifyData { modifier: 15 },
            Command::LoopEnd { start_index: 0 },
        ])
        .expect("Failed to execute");
    assert_eq!(0, interpreter.current_data());
    assert_eq!(0, interpreter.current_pointer());
}

#[test]
fn loop_executes_if_non_zero() {
    let mut interpreter = Interpreter::new(quiet(), 10);
    interpreter
        .execute(&[
            Command::ModifyData { modifier: 2 },
            Command::LoopStart { end_index: 3 },
            Command::Output,
            Command::ModifyData { modifier: -1 },
            Command::LoopEnd { start_index: 1 },
        ])
        .expect("Failed to execute");
    assert_eq!(0, interpreter.current_data());
    assert_eq!(0, interpreter.current_pointer());
    assert_eq!(vec![2, 1], interpreter.io.outputs);
}

#[test]
fn empty_program_changes_nothing() {
    let mut interpreter = Interpreter::new(quiet(), 10);
    interpreter.execute(&[]).expect("Failed to execute");
    assert_eq!(0, interpreter.current_pointer());
    assert_eq!(0, interpreter.current_data());
    assert!(interpreter.io.outputs.is_empty());
}

#[test]
fn skipped_loop_produces_no_output() {
    let mut interpreter = Interpreter::new(quiet(), 10);
    interpreter
        .execute(&[
            Command::LoopStart { end_index: 4 },
            Command::Output,
            Command::ModifyData { modifier: -1 },
            Command::LoopEnd { start_index: 0 },
        ])
        .expect("Failed to execute");
    assert_eq!(0, interpreter.current_pointer());
    assert_eq!(0, interpreter.current_data());
    assert!(interpreter.io.outputs.is_empty());
}

#[test]
fn counting_loop_runs_once_per_count() {
    let mut interpreter = Interpreter::new(quiet(), 10);
    interpreter
        .execute(&[
            Command::ModifyData { modifier: 3 },
            Command::LoopStart { end_index: 5 },
            Command::Output,
            Command::ModifyData { modifier: -1 },
            Command::LoopEnd { start_index: 1 },
        ])
        .expect("Failed to execute");
    assert_eq!(vec![3, 2, 1], interpreter.io.outputs);
    assert_eq!(0, interpreter.current_data());
}

#[test]
fn input_without_bytes_reports_io_error() {
    let mut interpreter = Interpreter::new(quiet(), 10);
    let result = interpreter.execute(&[Command::Input]);
    assert!(matches!(result, Err(Error::Io(ChannelError::EndOfInput))));
    assert_eq!(0, interpreter.current_data());
}
