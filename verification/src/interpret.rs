use vstd::prelude::*;

use crate::command::Command;
use crate::io::ChannelError;
use crate::io::InputOutput;

verus! {

/// A failure that aborts an execution.
#[derive(Clone, Copy, Debug, PartialEq, Eq, Structural)]
pub enum Error {
    /// A pointer move would have left the tape.
    OutOfBounds,
    /// The input/output channel reported a failure (including end of input)
    /// during an output or input command.
    Io(ChannelError),
}

/// What executing one command asks of the program counter: fall through to
/// the next command, or jump to an absolute position.
#[derive(Clone, Copy, Debug, PartialEq, Eq, Structural)]
pub enum SideEffect {
    Advance,
    JumpTo(usize),
}

impl Default for SideEffect {
    /// Most commands simply fall through.
    fn default() -> (r: Self)
        ensures
            r == SideEffect::Advance,
    {
        SideEffect::Advance
    }
}

/// The position the program counter moves to when a command at `pc` yields
/// the given side effect.
pub open spec fn side_effect_target(se: SideEffect, pc: nat) -> nat {
    match se {
        SideEffect::Advance => pc + 1,
        SideEffect::JumpTo(index) => index as nat,
    }
}

/// The whole state of a running machine: the tape, the active cell's
/// position, the program counter, the input bytes not yet consumed, and the
/// bytes output so far.
#[verifier::ext_equal]
pub ghost struct ExecState {
    pub cells: Seq<u8>,
    pub pointer: nat,
    pub pc: nat,
    pub inputs: Seq<u8>,
    pub outputs: Seq<u8>,
}

/// Why a machine aborts: the only two failures an execution itself can
/// produce. A real channel may in addition fail at any output or input
/// command (see `Interpreter::execute`).
pub ghost enum FailureKind {
    /// A pointer move left the tape.
    OutOfBounds,
    /// An input command found no input left.
    InputExhausted,
}

/// What one command does to a machine state.
pub ghost enum StepResult {
    Proceed(ExecState),
    Failed(FailureKind),
}

/// Where a machine is after running for a while: still going, halted past
/// the end of the program, or aborted at the recorded state.
pub ghost enum RunResult {
    Running(ExecState),
    Halted(ExecState),
    Failed(FailureKind, ExecState),
}

/// The effect of one command on a machine state: pointer moves are
/// bounds-checked, data edits wrap modulo 256, output appends the current
/// cell, input consumes the next pending byte, and the loop commands move the
/// program counter to their resolved targets depending on whether the current
/// cell is zero.
pub open spec fn apply(c: Command, s: ExecState) -> StepResult {
    match c {
        Command::MovePointer { offset } => if 0 <= s.pointer + offset < s.cells.len() {
            StepResult::Proceed(
                ExecState { pointer: (s.pointer + offset) as nat, pc: (s.pc + 1) as nat, ..s },
            )
        } else {
            StepResult::Failed(FailureKind::OutOfBounds)
        },
        Command::ModifyData { modifier } => StepResult::Proceed(
            ExecState {
                cells: s.cells.update(
                    s.pointer as int,
                    ((s.cells[s.pointer as int] + modifier) % 256) as u8,
                ),
                pc: (s.pc + 1) as nat,
                ..s
            },
        ),
        Command::Output => StepResult::Proceed(
            ExecState {
                outputs: s.outputs.push(s.cells[s.pointer as int]),
                pc: (s.pc + 1) as nat,
                ..s
            },
        ),
        Command::Input => if s.inputs.len() == 0 {
            StepResult::Failed(FailureKind::InputExhausted)
        } else {
            StepResult::Proceed(
                ExecState {
                    cells: s.cells.update(s.pointer as int, s.inputs[0]),
                    inputs: s.inputs.skip(1),
                    pc: (s.pc + 1) as nat,
                    ..s
                },
            )
        },
        Command::LoopStart { end_index } => StepResult::Proceed(
            ExecState {
                pc: if s.cells[s.pointer as int] == 0 {
                    end_index as nat
                } else {
                    (s.pc + 1) as nat
                },
                ..s
            },
        ),
        Command::LoopEnd { start_index } => StepResult::Proceed(
            ExecState {
                pc: if s.cells[s.pointer as int] != 0 {
                    start_index as nat
                } else {
                    (s.pc + 1) as nat
                },
                ..s
            },
        ),
    }
}

/// Where a machine started at `s` is after at most `fuel` commands of
/// `prog`: it halts as soon as the program counter reaches past the end of
/// the program, aborts at the first failing command, and otherwise is still
/// running when the fuel is spent.
pub open spec fn run(prog: Seq<Command>, s: ExecState, fuel: nat) -> RunResult
    decreases fuel,
{
    if fuel == 0 {
        RunResult::Running(s)
    } else if s.pc >= prog.len() {
        RunResult::Halted(s)
    } else {
        match apply(prog[s.pc as int], s) {
            StepResult::Proceed(t) => run(prog, t, (fuel - 1) as nat),
            StepResult::Failed(k) => RunResult::Failed(k, s),
        }
    }
}

/// The machine started at `s` halts or aborts after finitely many commands.
pub open spec fn halts(prog: Seq<Command>, s: ExecState) -> bool {
    exists|n: nat| !(#[trigger] run(prog, s, n) is Running)
}

/// Where a halting machine ends up. Meaningful only when `halts` holds;
/// `lemma_run_stable` shows the result does not depend on the fuel chosen.
pub open spec fn outcome(prog: Seq<Command>, s: ExecState) -> RunResult {
    run(prog, s, choose|n: nat| !(#[trigger] run(prog, s, n) is Running))
}

/// Running one command longer extends a still-running machine by one
/// application of `apply`.
pub proof fn lemma_run_step(prog: Seq<Command>, s: ExecState, n: nat, t: ExecState)
    requires
        run(prog, s, n) == RunResult::Running(t),
    ensures
        run(prog, s, n + 1) == (if t.pc >= prog.len() {
            RunResult::Halted(t)
        } else {
            match apply(prog[t.pc as int], t) {
                StepResult::Proceed(u) => RunResult::Running(u),
                StepResult::Failed(k) => RunResult::Failed(k, t),
            }
        }),
    decreases n,
{
    if n == 0 {
        assert(run(prog, s, 0) == RunResult::Running(s));
        assert(s == t);
        assert(run(prog, s, 1) == (if s.pc >= prog.len() {
            RunResult::Halted(s)
        } else {
            match apply(prog[s.pc as int], s) {
                StepResult::Proceed(u) => run(prog, u, 0),
                StepResult::Failed(k) => RunResult::Failed(k, s),
            }
        }));
    } else {
        assert(run(prog, s, n) == RunResult::Running(t));
        assert(s.pc < prog.len());
        let u = apply(prog[s.pc as int], s)->Proceed_0;
        assert(apply(prog[s.pc as int], s) == StepResult::Proceed(u));
        assert(run(prog, u, (n - 1) as nat) == RunResult::Running(t));
        lemma_run_step(prog, u, (n - 1) as nat, t);
        assert(run(prog, s, n + 1) == run(prog, u, n));
    }
}

/// Once a machine has halted or aborted, more fuel changes nothing.
pub proof fn lemma_run_stable(prog: Seq<Command>, s: ExecState, n: nat, m: nat)
    requires
        !(run(prog, s, n) is Running),
        n <= m,
    ensures
        run(prog, s, m) == run(prog, s, n),
    decreases n,
{
    if n > 0 && s.pc < prog.len() {
        match apply(prog[s.pc as int], s) {
            StepResult::Proceed(u) => {
                lemma_run_stable(prog, u, (n - 1) as nat, (m - 1) as nat);
            },
            StepResult::Failed(_) => {},
        }
    }
}

/// Any fuel that decides the machine decides it the same way `outcome` does.
pub proof fn lemma_outcome_of(prog: Seq<Command>, s: ExecState, n: nat)
    requires
        !(run(prog, s, n) is Running),
    ensures
        halts(prog, s),
        outcome(prog, s) == run(prog, s, n),
{
    let w = choose|w: nat| !(#[trigger] run(prog, s, w) is Running);
    if w <= n {
        lemma_run_stable(prog, s, w, n);
    } else {
        lemma_run_stable(prog, s, n, w);
    }
}

/// A machine still running at `n` commands but decided at `m` has `n < m`.
pub proof fn lemma_running_below(prog: Seq<Command>, s: ExecState, n: nat, m: nat)
    requires
        run(prog, s, n) is Running,
        !(run(prog, s, m) is Running),
    ensures
        n < m,
{
    if m <= n {
        lemma_run_stable(prog, s, m, n);
    }
}

/// Executes a finished program against a fixed-size byte tape, routing
/// output and input commands through the injected channel.
pub struct Interpreter<I: InputOutput> {
    /// The tape.
    pub cells: Vec<u8>,
    /// The position of the active cell; always within the tape.
    pub pointer: usize,
    /// The input/output channel.
    pub io: I,
}

impl<I: InputOutput> Interpreter<I> {
    /// The pointer addresses a cell of the tape.
    pub open spec fn wf(self) -> bool {
        self.pointer < self.cells@.len()
    }

    /// The machine state this interpreter embodies when it is about to
    /// execute the command at `pc`.
    pub open spec fn state_at(self, pc: nat) -> ExecState {
        ExecState {
            cells: self.cells@,
            pointer: self.pointer as nat,
            pc,
            inputs: self.io.pending_inputs(),
            outputs: self.io.written(),
        }
    }

    /// A fresh interpreter: a tape of `cells` zeroed cells (at least one),
    /// the pointer on the first cell, owning the given channel.
    pub fn new(io: I, cells: usize) -> (r: Self)
        requires
            cells >= 1,
        ensures
            r.wf(),
            r.cells@.len() == cells,
            forall|i: int| 0 <= i < cells ==> r.cells@[i] == 0u8,
            r.pointer == 0,
            r.io == io,
    {
        let mut tape: Vec<u8> = Vec::new();
        while tape.len() < cells
            invariant
                tape@.len() <= cells,
                forall|i: int| 0 <= i < tape@.len() ==> tape@[i] == 0u8,
            decreases cells - tape@.len(),
        {
            tape.push(0);
        }
        Interpreter { cells: tape, pointer: 0, io }
    }

    /// Execute the program to completion. The machine must halt (have a
    /// finite run); the channel need not cooperate, so the contract promises:
    /// on `Ok` the machine's halting state is reached exactly; on
    /// `OutOfBounds` its aborting state is reached exactly; and an `Io` error
    /// leaves the interpreter at a still-running state whose next command is
    /// an output or an input, with every successful read and write accounted
    /// for.
    #[verifier::loop_isolation(false)]
    pub fn execute(&mut self, program: &[Command]) -> (r: Result<(), Error>)
        requires
            old(self).wf(),
            halts(program@, old(self).state_at(0)),
        ensures
            final(self).wf(),
            final(self).cells@.len() == old(self).cells@.len(),
            match r {
                Ok(()) => outcome(program@, old(self).state_at(0)) matches RunResult::Halted(f)
                    && final(self).cells@ == f.cells
                    && final(self).pointer as nat == f.pointer
                    && final(self).io.pending_inputs() == f.inputs
                    && final(self).io.written() == f.outputs,
                Err(Error::OutOfBounds) => outcome(program@, old(self).state_at(0)) matches
                    RunResult::Failed(FailureKind::OutOfBounds, f)
                    && final(self).cells@ == f.cells
                    && final(self).pointer as nat == f.pointer
                    && final(self).io.pending_inputs() == f.inputs
                    && final(self).io.written() == f.outputs,
                Err(Error::Io(_)) => exists|n: nat|
                    (#[trigger] run(program@, old(self).state_at(0), n)) matches
                        RunResult::Running(f)
                        && f.pc < program@.len()
                        && (program@[f.pc as int] is Output || program@[f.pc as int] is Input)
                        && final(self).cells@ == f.cells
                        && final(self).pointer as nat == f.pointer
                        && final(self).io.pending_inputs() == f.inputs
                        && final(self).io.written() == f.outputs,
            },
    {
        let ghost s0 = old(self).state_at(0);
        let ghost fuel = choose|n: nat| !(#[trigger] run(program@, s0, n) is Running);
        let ghost mut steps: nat = 0;
        let mut command_index: usize = 0;
        proof {
            lemma_running_below(program@, s0, steps, fuel);
        }
        while command_index < program.len()
            invariant
                self.wf(),
                self.cells@.len() == old(self).cells@.len(),
                s0 == old(self).state_at(0),
                !(run(program@, s0, fuel) is Running),
                run(program@, s0, steps) == RunResult::Running(
                    self.state_at(command_index as nat),
                ),
                steps < fuel,
            decreases fuel - steps,
        {
            let ghost cur = self.state_at(command_index as nat);
            let command = program[command_index];
            let result = self.execute_command(&command);
            proof {
                lemma_run_step(program@, s0, steps, cur);
            }
            match result {
                Ok(se) => {
                    let next: usize = match se {
                        SideEffect::Advance => command_index + 1,
                        SideEffect::JumpTo(index) => index,
                    };
                    proof {
                        assert(apply(program@[cur.pc as int], cur) == StepResult::Proceed(
                            self.state_at(side_effect_target(se, command_index as nat)),
                        ));
                        steps = steps + 1;
                        lemma_running_below(program@, s0, steps, fuel);
                    }
                    command_index = next;
                },
                Err(e) => {
                    proof {
                        if e is OutOfBounds {
                            assert(apply(program@[cur.pc as int], cur) == StepResult::Failed(
                                FailureKind::OutOfBounds,
                            ));
                            lemma_outcome_of(program@, s0, steps + 1);
                        }
                    }
                    return Err(e);
                },
            }
        }
        proof {
            lemma_run_step(program@, s0, steps, self.state_at(command_index as nat));
            lemma_outcome_of(program@, s0, steps + 1);
        }
        Ok(())
    }

    /// Execute one command: exactly one application of `apply`, at whatever
    /// position the command stands, with the returned side effect saying
    /// where the program counter goes next. On an error nothing observable
    /// has changed, except that the channel itself may have failed an output
    /// or input command.
    pub fn execute_command(&mut self, command: &Command) -> (r: Result<SideEffect, Error>)
        requires
            old(self).wf(),
        ensures
            final(self).wf(),
            final(self).cells@.len() == old(self).cells@.len(),
            match r {
                Ok(se) => forall|pc: nat|
                    apply(*command, #[trigger] old(self).state_at(pc)) == StepResult::Proceed(
                        final(self).state_at(side_effect_target(se, pc)),
                    ),
                Err(e) => final(self).cells@ == old(self).cells@
                    && final(self).pointer == old(self).pointer
                    && final(self).io.pending_inputs() == old(self).io.pending_inputs()
                    && final(self).io.written() == old(self).io.written()
                    && match e {
                    Error::OutOfBounds => forall|pc: nat|
                        apply(*command, #[trigger] old(self).state_at(pc)) == StepResult::Failed(
                            FailureKind::OutOfBounds,
                        ),
                    Error::Io(_) => *command is Output || *command is Input,
                },
            },
    {
        let result = match command {
            Command::MovePointer { offset } => self.move_pointer(*offset),
            Command::ModifyData { modifier } => self.modify_data(*modifier),
            Command::Output => self.output(),
            Command::Input => self.input(),
            Command::LoopStart { end_index } => self.loop_start(*end_index),
            Command::LoopEnd { start_index } => self.loop_end(*start_index),
        };
        proof {
            if let Ok(se) = result {
                assert forall|pc: nat|
                    apply(*command, #[trigger] old(self).state_at(pc)) == StepResult::Proceed(
                        self.state_at(side_effect_target(se, pc)),
                    ) by {
                    let a = apply(*command, old(self).state_at(pc));
                    assert(a is Proceed);
                    assert(a->Proceed_0 =~= self.state_at(side_effect_target(se, pc)));
                }
            }
        }
        result
    }

    fn move_pointer(&mut self, offset: i64) -> (r: Result<SideEffect, Error>)
        requires
            old(self).wf(),
        ensures
            final(self).wf(),
            final(self).cells@ == old(self).cells@,
            final(self).io.pending_inputs() == old(self).io.pending_inputs(),
            final(self).io.written() == old(self).io.written(),
            match r {
                Ok(se) => se == SideEffect::Advance && 0 <= old(self).pointer + offset < old(
                    self,
                ).cells@.len() && final(self).pointer == old(self).pointer + offset,
                Err(e) => e == Error::OutOfBounds && !(0 <= old(self).pointer + offset < old(
                    self,
                ).cells@.len()) && final(self).pointer == old(self).pointer,
            },
    {
        let target: i128 = self.pointer as i128 + offset as i128;
        if target < 0 || target >= self.cells.len() as i128 {
            Err(Error::OutOfBounds)
        } else {
            self.pointer = target as usize;
            Ok(SideEffect::default())
        }
    }

    fn modify_data(&mut self, modifier: i64) -> (r: Result<SideEffect, Error>)
        requires
            old(self).wf(),
        ensures
            final(self).wf(),
            final(self).pointer == old(self).pointer,
            final(self).io.pending_inputs() == old(self).io.pending_inputs(),
            final(self).io.written() == old(self).io.written(),
            r == Ok::<SideEffect, Error>(SideEffect::Advance),
            final(self).cells@ == old(self).cells@.update(
                old(self).pointer as int,
                ((old(self).cells@[old(self).pointer as int] + modifier) % 256) as u8,
            ),
    {
        let current: i64 = self.cells[self.pointer] as i64;
        let reduced: i64 = if modifier >= 0 {
            modifier % 256
        } else {
            255 - ((-(modifier + 1)) % 256)
        };
        proof {
            lemma_reduce_mod_256(modifier);
            vstd::arithmetic::div_mod::lemma_add_mod_noop(current as int, modifier as int, 256);
        }
        let value: u8 = ((current + reduced) % 256) as u8;
        self.cells[self.pointer] = value;
        Ok(SideEffect::default())
    }

    fn output(&mut self) -> (r: Result<SideEffect, Error>)
        requires
            old(self).wf(),
        ensures
            final(self).wf(),
            final(self).cells@ == old(self).cells@,
            final(self).pointer == old(self).pointer,
            final(self).io.pending_inputs() == old(self).io.pending_inputs(),
            match r {
                Ok(se) => se == SideEffect::Advance && final(self).io.written() == old(
                    self,
                ).io.written().push(old(self).cells@[old(self).pointer as int]),
                Err(e) => e matches Error::Io(_) && final(self).io.written() == old(
                    self,
                ).io.written(),
            },
    {
        let data: u8 = self.cells[self.pointer];
        match self.io.write(data) {
            Ok(()) => Ok(SideEffect::default()),
            Err(cause) => Err(Error::Io(cause)),
        }
    }

    fn input(&mut self) -> (r: Result<SideEffect, Error>)
        requires
            old(self).wf(),
        ensures
            final(self).wf(),
            final(self).pointer == old(self).pointer,
            final(self).io.written() == old(self).io.written(),
            match r {
                Ok(se) => se == SideEffect::Advance && old(self).io.pending_inputs().len() > 0
                    && final(self).cells@ == old(self).cells@.update(
                    old(self).pointer as int,
                    old(self).io.pending_inputs()[0],
                ) && final(self).io.pending_inputs() == old(self).io.pending_inputs().skip(1),
                Err(e) => e matches Error::Io(_) && final(self).cells@ == old(self).cells@
                    && final(self).io.pending_inputs() == old(self).io.pending_inputs(),
            },
    {
        match self.io.read() {
            Ok(data) => {
                self.cells[self.pointer] = data;
                Ok(SideEffect::default())
            },
            Err(cause) => Err(Error::Io(cause)),
        }
    }

    fn loop_start(&mut self, end_index: usize) -> (r: Result<SideEffect, Error>)
        requires
            old(self).wf(),
        ensures
            *final(self) == *old(self),
            r == Ok::<SideEffect, Error>(
                if old(self).cells@[old(self).pointer as int] == 0 {
                    SideEffect::JumpTo(end_index)
                } else {
                    SideEffect::Advance
                },
            ),
    {
        if self.current_data() == 0 {
            Ok(SideEffect::JumpTo(end_index))
        } else {
            Ok(SideEffect::default())
        }
    }

    fn loop_end(&mut self, start_index: usize) -> (r: Result<SideEffect, Error>)
        requires
            old(self).wf(),
        ensures
            *final(self) == *old(self),
            r == Ok::<SideEffect, Error>(
                if old(self).cells@[old(self).pointer as int] != 0 {
                    SideEffect::JumpTo(start_index)
                } else {
                    SideEffect::Advance
                },
            ),
    {
        if self.current_data() != 0 {
            Ok(SideEffect::JumpTo(start_index))
        } else {
            Ok(SideEffect::default())
        }
    }

    /// The value of the active cell.
    pub fn current_data(&self) -> (r: u8)
        requires
            self.wf(),
        ensures
            r == self.cells@[self.pointer as int],
    {
        self.cells[self.pointer]
    }

    /// The position of the active cell.
    pub fn current_pointer(&self) -> (r: usize)
        ensures
            r == self.pointer,
    {
        self.pointer
    }
}

/// The reduction `modify_data` computes agrees with the mathematical
/// remainder of the modifier modulo 256.
proof fn lemma_reduce_mod_256(modifier: i64)
    ensures
        (if modifier >= 0 {
            (modifier as int) % 256
        } else {
            255 - ((-(modifier + 1)) as int) % 256
        }) == (modifier as int) % 256,
{
    if modifier < 0 {
        let k: int = -(modifier as int + 1);
        vstd::arithmetic::div_mod::lemma_add_mod_noop(modifier as int, k, 256);
        assert((modifier + k) % 256 == 255) by {
            assert(modifier as int + k == -1);
        }
    }
}

} // verus!
