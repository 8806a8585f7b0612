use brainrust::Command;
use brainrust::Interpreter;
use brainrust::Preprocessor;
use brainrust::RawCommand;
use brainrust::ScriptedInputOutput;

fn compile(source: &str) -> Vec<Command> {
    let mut processor = Preprocessor::default();
    for character in source.chars() {
        let command = RawCommand::from(character);
        processor.process(&command).expect("Preprocessing failed");
    }
    processor.program().expect("Finalization failed")
}

#[test]
fn nested_loops_count_down() {
    // Guard cell set to 2; the inner loop outputs the guard cell and then
    // decrements it until it reaches zero, after which the outer loop exits.
    let program = compile("++[[.-]]");
    assert_eq!(
        vec![
            Command::ModifyData { modifier: 2 },
            Command::LoopStart { end_index: 7 },
            Command::LoopStart { end_index: 6 },
            Command::Output,
            Command::ModifyData { modifier: -1 },
            Command::LoopEnd { start_index: 2 },
            Command::LoopEnd { start_index: 1 },
        ],
        program
    );
    let mut interpreter = Interpreter::new(ScriptedInputOutput::new(Vec::new()), 10);
    interpreter.execute(&program).expect("Failed to execute");
    assert_eq!(vec![2, 1], interpreter.io.outputs);
    assert_eq!(0, interpreter.current_data());
    assert_eq!(0, interpreter.current_pointer());
}

#[test]
fn echo_program_copies_input() {
    // Read two bytes and write each back out.
    let program = compile(",.,.");
    let io = ScriptedInputOutput::new(vec![7, 9]);
    let mut interpreter = Interpreter::new(io, 10);
    interpreter.execute(&program).expect("Failed to execute");
    assert_eq!(vec![7, 9], interpreter.io.outputs);
    assert!(interpreter.io.inputs.is_empty());
}

#[test]
fn comment_characters_are_ignored_end_to_end() {
    let program = compile("+ two more: ++ then emit\n.");
    assert_eq!(
        vec![Command::ModifyData { modifier: 3 }, Command::Output],
        program
    );
    let mut interpreter = Interpreter::new(ScriptedInputOutput::new(Vec::new()), 10);
    interpreter.execute(&program).expect("Failed to execute");
    assert_eq!(vec![3], interpreter.io.outputs);
}
