use vstd::prelude::*;

use crate::command::Command;
use crate::command::RawCommand;

verus! {

/// A structural failure of preprocessing. Preprocessing never fails for an
/// arithmetic reason, only because loop tokens do not pair up.
#[derive(Clone, Copy, Debug, PartialEq, Eq, Structural)]
pub enum Error {
    /// Finalization found this many loop starts still unclosed.
    OpenLoops(usize),
    /// A loop end arrived with no open loop start to match it.
    NoLoopStart,
}

/// The abstract state of a preprocessor: the commands emitted so far, the
/// positions (into `commands`) of loop starts not yet closed, youngest last,
/// and the pending run not yet flushed into `commands`.
#[verifier::ext_equal]
pub ghost struct PreState {
    pub commands: Seq<Command>,
    pub open_loops: Seq<usize>,
    pub pending: Option<Command>,
}

impl PreState {
    /// The state of a freshly constructed preprocessor.
    pub open spec fn init() -> PreState {
        PreState { commands: Seq::empty(), open_loops: Seq::empty(), pending: None }
    }

    /// The commands emitted so far with the pending run appended.
    pub open spec fn flushed(self) -> Seq<Command> {
        match self.pending {
            Some(c) => self.commands.push(c),
            None => self.commands,
        }
    }

    /// The same state after moving the pending run into the command list.
    pub open spec fn flush(self) -> PreState {
        PreState { commands: self.flushed(), open_loops: self.open_loops, pending: None }
    }

    /// Every recorded open-loop position refers into the command list, so a
    /// loop end can patch the command standing there.
    pub open spec fn wf(self) -> bool {
        forall|i: int|
            0 <= i < self.open_loops.len() ==> (self.open_loops[i] as int) < self.commands.len()
    }
}

/// Fold a pointer move of `delta` (+1 or -1) into the state: extend an open
/// `MovePointer` run if its offset can take one more step, otherwise flush
/// whatever was pending and open a fresh `MovePointer` run.
pub open spec fn merge_move(s: PreState, delta: int) -> PreState {
    match s.pending {
        Some(Command::MovePointer { offset }) => if i64::MIN <= offset + delta <= i64::MAX {
            PreState { pending: Some(Command::MovePointer { offset: (offset + delta) as i64 }), ..s }
        } else {
            PreState {
                commands: s.commands.push(Command::MovePointer { offset }),
                pending: Some(Command::MovePointer { offset: delta as i64 }),
                ..s
            }
        },
        Some(other) => PreState {
            commands: s.commands.push(other),
            pending: Some(Command::MovePointer { offset: delta as i64 }),
            ..s
        },
        None => PreState { pending: Some(Command::MovePointer { offset: delta as i64 }), ..s },
    }
}

/// Fold a data edit of `delta` (+1 or -1) into the state, symmetrically to
/// `merge_move`.
pub open spec fn merge_data(s: PreState, delta: int) -> PreState {
    match s.pending {
        Some(Command::ModifyData { modifier }) => if i64::MIN <= modifier + delta <= i64::MAX {
            PreState { pending: Some(Command::ModifyData { modifier: (modifier + delta) as i64 }), ..s }
        } else {
            PreState {
                commands: s.commands.push(Command::ModifyData { modifier }),
                pending: Some(Command::ModifyData { modifier: delta as i64 }),
                ..s
            }
        },
        Some(other) => PreState {
            commands: s.commands.push(other),
            pending: Some(Command::ModifyData { modifier: delta as i64 }),
            ..s
        },
        None => PreState { pending: Some(Command::ModifyData { modifier: delta as i64 }), ..s },
    }
}

/// Flush the pending run and make `c` the new pending command. Output and
/// input commands pass through this: they merge with nothing, but sit as the
/// pending command until the next token (or finalization) flushes them.
pub open spec fn set_pending(s: PreState, c: Command) -> PreState {
    PreState { commands: s.flushed(), open_loops: s.open_loops, pending: Some(c) }
}

/// Flush the pending run, record the position the new loop start occupies as
/// an open loop, and emit the loop start as a placeholder whose `end_index`
/// is patched when the matching loop end arrives.
pub open spec fn open_loop(s: PreState) -> PreState {
    let cs = s.flushed();
    PreState {
        commands: cs.push(Command::LoopStart { end_index: 0 }),
        open_loops: s.open_loops.push(cs.len() as usize),
        pending: None,
    }
}

/// Flush the pending run, pop the youngest open loop, emit a `LoopEnd`
/// referring back to it, and patch the popped placeholder so its `end_index`
/// points one past the `LoopEnd` just emitted.
pub open spec fn close_loop(s: PreState) -> PreState {
    let cs = s.flushed();
    let start_index = s.open_loops.last();
    PreState {
        commands: cs.push(Command::LoopEnd { start_index }).update(
            start_index as int,
            Command::LoopStart { end_index: (cs.len() + 1) as usize },
        ),
        open_loops: s.open_loops.drop_last(),
        pending: None,
    }
}

/// What processing one raw token does to a preprocessor state. The only
/// failure is a loop end with no open loop start; in that case the state
/// still flushes its pending run (see `Preprocessor::process`).
pub open spec fn step(s: PreState, raw: RawCommand) -> Result<PreState, Error> {
    match raw {
        RawCommand::IncrementPointer => Ok(merge_move(s, 1)),
        RawCommand::DecrementPointer => Ok(merge_move(s, -1)),
        RawCommand::IncrementData => Ok(merge_data(s, 1)),
        RawCommand::DecrementData => Ok(merge_data(s, -1)),
        RawCommand::Output => Ok(set_pending(s, Command::Output)),
        RawCommand::Input => Ok(set_pending(s, Command::Input)),
        RawCommand::LoopStart => Ok(open_loop(s)),
        RawCommand::LoopEnd => if s.open_loops.len() == 0 {
            Err(Error::NoLoopStart)
        } else {
            Ok(close_loop(s))
        },
        RawCommand::Noop => Ok(s),
    }
}

/// What finalization returns: the flushed command list, unless loop starts
/// are still open, in which case their number.
pub open spec fn finalize(s: PreState) -> Result<Seq<Command>, Error> {
    if s.open_loops.len() > 0 {
        Err(Error::OpenLoops(s.open_loops.len() as usize))
    } else {
        Ok(s.flushed())
    }
}

/// What feeding a whole token stream to a preprocessor does: `step` folded
/// over the stream, stopping at the first failure.
pub open spec fn run_tokens(s: PreState, raws: Seq<RawCommand>) -> Result<PreState, Error>
    decreases raws.len(),
{
    if raws.len() == 0 {
        Ok(s)
    } else {
        match step(s, raws[0]) {
            Ok(t) => run_tokens(t, raws.skip(1)),
            Err(e) => Err(e),
        }
    }
}

/// Folds a stream of raw tokens, fed one at a time, into an optimized
/// program: consecutive pointer moves and data edits merge into single
/// commands, and loop jump targets are resolved in the same single pass.
pub struct Preprocessor {
    /// Commands emitted so far.
    pub commands: Vec<Command>,
    /// Positions in `commands` of loop starts not yet closed, youngest last.
    pub open_loop_indexes: Vec<usize>,
    /// The pending run: the last command, if any, that later tokens may still
    /// merge into.
    pub current_command: Option<Command>,
}

impl View for Preprocessor {
    type V = PreState;

    open spec fn view(&self) -> PreState {
        PreState {
            commands: self.commands@,
            open_loops: self.open_loop_indexes@,
            pending: self.current_command,
        }
    }
}

impl Default for Preprocessor {
    /// A preprocessor that has seen no tokens.
    fn default() -> (r: Self)
        ensures
            r@ == PreState::init(),
    {
        let r = Preprocessor {
            commands: Vec::new(),
            open_loop_indexes: Vec::new(),
            current_command: None,
        };
        proof {
            assert(r@ =~= PreState::init());
        }
        r
    }
}

impl Preprocessor {
    /// Consume one raw token: exactly the transition `step` describes. On the
    /// one failure, a loop end with nothing to match it, the pending run has
    /// still been flushed and the token is otherwise ignored.
    pub fn process(&mut self, command: &RawCommand) -> (r: Result<(), Error>)
        requires
            old(self)@.wf(),
        ensures
            final(self)@.wf(),
            match r {
                Ok(()) => step(old(self)@, *command) == Ok::<PreState, Error>(final(self)@),
                Err(e) => step(old(self)@, *command) == Err::<PreState, Error>(e)
                    && final(self)@ == old(self)@.flush(),
            },
    {
        match command {
            RawCommand::IncrementPointer => self.increment_pointer(),
            RawCommand::DecrementPointer => self.decrement_pointer(),
            RawCommand::IncrementData => self.increment_data(),
            RawCommand::DecrementData => self.decrement_data(),
            RawCommand::Output => self.output(),
            RawCommand::Input => self.input(),
            RawCommand::LoopStart => self.loop_start(),
            RawCommand::LoopEnd => {
                let r = self.loop_end();
                if let Err(e) = r {
                    return Err(e);
                }
            },
            RawCommand::Noop => (),
        };
        Ok(())
    }

    /// Consume the preprocessor and return the finished program, or the
    /// number of loop starts left unclosed: exactly what `finalize` says.
    pub fn program(self) -> (r: Result<Vec<Command>, Error>)
        ensures
            match r {
                Ok(commands) => finalize(self@) == Ok::<Seq<Command>, Error>(commands@),
                Err(e) => finalize(self@) == Err::<Seq<Command>, Error>(e),
            },
    {
        let mut this = self;
        if this.open_loop_indexes.len() > 0 {
            return Err(Error::OpenLoops(this.open_loop_indexes.len()));
        }
        this.store_current();
        Ok(this.commands)
    }

    fn increment_pointer(&mut self)
        ensures
            final(self)@ == merge_move(old(self)@, 1),
    {
        self.alter_pointer(1);
    }

    fn decrement_pointer(&mut self)
        ensures
            final(self)@ == merge_move(old(self)@, -1),
    {
        self.alter_pointer(-1);
    }

    fn alter_pointer(&mut self, step: i64)
        requires
            step == 1 || step == -1,
        ensures
            final(self)@ == merge_move(old(self)@, step as int),
    {
        let taken = self.current_command;
        self.current_command = None;
        let offset = match taken {
            Some(Command::MovePointer { offset }) => {
                if (step > 0 && offset == i64::MAX) || (step < 0 && offset == i64::MIN) {
                    self.commands.push(Command::MovePointer { offset });
                    step
                } else {
                    offset + step
                }
            },
            None => step,
            Some(command) => {
                self.commands.push(command);
                step
            },
        };
        self.current_command = Some(Command::MovePointer { offset });
        proof {
            assert(self@ =~= merge_move(old(self)@, step as int));
        }
    }

    fn increment_data(&mut self)
        ensures
            final(self)@ == merge_data(old(self)@, 1),
    {
        self.alter_data(1);
    }

    fn decrement_data(&mut self)
        ensures
            final(self)@ == merge_data(old(self)@, -1),
    {
        self.alter_data(-1);
    }

    fn alter_data(&mut self, step: i64)
        requires
            step == 1 || step == -1,
        ensures
            final(self)@ == merge_data(old(self)@, step as int),
    {
        let taken = self.current_command;
        self.current_command = None;
        let modifier = match taken {
            Some(Command::ModifyData { modifier }) => {
                if (step > 0 && modifier == i64::MAX) || (step < 0 && modifier == i64::MIN) {
                    self.commands.push(Command::ModifyData { modifier });
                    step
                } else {
                    modifier + step
                }
            },
            None => step,
            Some(command) => {
                self.commands.push(command);
                step
            },
        };
        self.current_command = Some(Command::ModifyData { modifier });
        proof {
            assert(self@ =~= merge_data(old(self)@, step as int));
        }
    }

    fn output(&mut self)
        ensures
            final(self)@ == set_pending(old(self)@, Command::Output),
    {
        self.handle_generic(Command::Output);
    }

    fn input(&mut self)
        ensures
            final(self)@ == set_pending(old(self)@, Command::Input),
    {
        self.handle_generic(Command::Input);
    }

    fn loop_start(&mut self)
        ensures
            final(self)@ == open_loop(old(self)@),
    {
        self.store_current();
        self.open_loop_indexes.push(self.commands.len());
        self.commands.push(Command::LoopStart { end_index: 0 });
        self.current_command = None;
        proof {
            assert(self@ =~= open_loop(old(self)@));
        }
    }

    fn loop_end(&mut self) -> (r: Result<(), Error>)
        requires
            old(self)@.wf(),
        ensures
            match r {
                Ok(()) => old(self)@.open_loops.len() > 0 && final(self)@ == close_loop(old(self)@),
                Err(e) => e == Error::NoLoopStart && old(self)@.open_loops.len() == 0
                    && final(self)@ == old(self)@.flush(),
            },
    {
        self.store_current();
        let start_index = match self.open_loop_indexes.pop() {
            Some(index) => index,
            None => return Err(Error::NoLoopStart),
        };
        self.commands.push(Command::LoopEnd { start_index });
        let end_index = self.commands.len();
        self.commands[start_index] = Command::LoopStart { end_index };
        self.current_command = None;
        proof {
            assert(self@ =~= close_loop(old(self)@));
        }
        Ok(())
    }

    fn handle_generic(&mut self, expected: Command)
        ensures
            final(self)@ == set_pending(old(self)@, expected),
    {
        self.store_current();
        self.current_command = Some(expected);
        proof {
            assert(self@ =~= set_pending(old(self)@, expected));
        }
    }

    fn store_current(&mut self)
        ensures
            final(self)@ == old(self)@.flush(),
    {
        let taken = self.current_command;
        self.current_command = None;
        if let Some(command) = taken {
            self.commands.push(command);
        }
        proof {
            assert(self@ =~= old(self)@.flush());
        }
    }
}

} // verus!
