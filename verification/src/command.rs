use vstd::prelude::*;

verus! {

/// One raw token of the source language, produced one-to-one from input
/// characters. Any character outside the canonical instruction set maps to
/// `Noop`, which the preprocessor ignores.
#[derive(Clone, Copy, Debug, PartialEq, Eq, Structural)]
pub enum RawCommand {
    IncrementPointer,
    DecrementPointer,
    IncrementData,
    DecrementData,
    Output,
    Input,
    LoopStart,
    LoopEnd,
    Noop,
}

/// One element of an optimized program: consecutive pointer moves and data
/// edits are merged into a single command carrying their net effect, and the
/// two loop commands carry resolved jump targets.
///
/// In a finished program the targets refer to each other symmetrically:
/// a `LoopStart`'s `end_index` points one past its matching `LoopEnd`, and
/// that `LoopEnd`'s `start_index` points at the `LoopStart` itself.
#[derive(Clone, Copy, Debug, PartialEq, Eq, Structural)]
pub enum Command {
    MovePointer { offset: i64 },
    ModifyData { modifier: i64 },
    Output,
    Input,
    LoopStart { end_index: usize },
    LoopEnd { start_index: usize },
}

/// The token a single source character denotes.
pub open spec fn raw_of_char(input: char) -> RawCommand {
    if input == '>' {
        RawCommand::IncrementPointer
    } else if input == '<' {
        RawCommand::DecrementPointer
    } else if input == '+' {
        RawCommand::IncrementData
    } else if input == '-' {
        RawCommand::DecrementData
    } else if input == '.' {
        RawCommand::Output
    } else if input == ',' {
        RawCommand::Input
    } else if input == '[' {
        RawCommand::LoopStart
    } else if input == ']' {
        RawCommand::LoopEnd
    } else {
        RawCommand::Noop
    }
}

impl From<char> for RawCommand {
    fn from(input: char) -> (r: Self)
        ensures
            r == raw_of_char(input),
    {
        match input {
            '>' => Self::IncrementPointer,
            '<' => Self::DecrementPointer,
            '+' => Self::IncrementData,
            '-' => Self::DecrementData,
            '.' => Self::Output,
            ',' => Self::Input,
            '[' => Self::LoopStart,
            ']' => Self::LoopEnd,
            _ => Self::Noop,
        }
    }
}

impl vstd::std_specs::convert::FromSpecImpl<char> for RawCommand {
    open spec fn obeys_from_spec() -> bool {
        true
    }

    open spec fn from_spec(input: char) -> RawCommand {
        raw_of_char(input)
    }
}

} // verus!
