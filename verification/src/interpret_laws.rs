//! Laws of execution: what whole runs of a program do to the machine.

use vstd::prelude::*;

use crate::command::Command;
use crate::interpret::ExecState;
use crate::interpret::RunResult;
use crate::interpret::StepResult;
use crate::interpret::apply;
use crate::interpret::halts;
use crate::interpret::lemma_outcome_of;
use crate::interpret::lemma_run_step;
use crate::interpret::outcome;
use crate::interpret::run;

verus! {

/// Running `n + k` commands is running `n` commands and then `k` more from
/// wherever that left a still-running machine.
pub proof fn lemma_run_compose(prog: Seq<Command>, s: ExecState, n: nat, u: ExecState, k: nat)
    requires
        run(prog, s, n) == RunResult::Running(u),
    ensures
        run(prog, s, n + k) == run(prog, u, k),
    decreases n,
{
    if n == 0 {
        assert(u == s);
    } else {
        assert(s.pc < prog.len());
        let t = apply(prog[s.pc as int], s)->Proceed_0;
        assert(apply(prog[s.pc as int], s) == StepResult::Proceed(t));
        assert(run(prog, t, (n - 1) as nat) == RunResult::Running(u));
        lemma_run_compose(prog, t, (n - 1) as nat, u, k);
        assert(run(prog, s, n + k) == run(prog, t, (n + k - 1) as nat));
    }
}

/// A machine that reaches `u` and halts from there halts outright, with the
/// same outcome.
pub proof fn lemma_outcome_from(prog: Seq<Command>, s: ExecState, n: nat, u: ExecState)
    requires
        run(prog, s, n) == RunResult::Running(u),
        halts(prog, u),
    ensures
        halts(prog, s),
        outcome(prog, s) == outcome(prog, u),
{
    let m = choose|m: nat| !(#[trigger] run(prog, u, m) is Running);
    lemma_run_compose(prog, s, n, u, m);
    lemma_outcome_of(prog, s, n + m);
    lemma_outcome_of(prog, u, m);
}

/// A loop whose guard cell is zero on entry is skipped whole: when the
/// command at hand is a `LoopStart` whose `end_index` lies at or past the end
/// of the program (as it does for a loop that closes the program) and the
/// active cell is zero, the machine halts at once, with the tape, the
/// pointer, the pending inputs and the outputs all unchanged.
pub proof fn lemma_loop_skipped_when_zero(prog: Seq<Command>, s: ExecState, end_index: usize)
    requires
        s.pc < prog.len(),
        prog[s.pc as int] == (Command::LoopStart { end_index }),
        end_index >= prog.len(),
        s.pointer < s.cells.len(),
        s.cells[s.pointer as int] == 0,
    ensures
        halts(prog, s),
        outcome(prog, s) matches RunResult::Halted(f) && f.cells == s.cells && f.pointer
            == s.pointer && f.inputs == s.inputs && f.outputs == s.outputs,
{
    let t = ExecState { pc: end_index as nat, ..s };
    assert(apply(prog[s.pc as int], s) == StepResult::Proceed(t));
    lemma_run_step(prog, s, 0, s);
    assert(run(prog, s, 1) == RunResult::Running(t));
    lemma_run_step(prog, s, 1, t);
    assert(run(prog, s, 2) == RunResult::Halted(t));
    lemma_outcome_of(prog, s, 2);
}

/// The program a countdown loop compiles to: output the guard cell, then
/// decrement it, as long as it is not zero.
pub open spec fn countdown_program() -> Seq<Command> {
    seq![
        Command::LoopStart { end_index: 4usize },
        Command::Output,
        Command::ModifyData { modifier: -1i64 },
        Command::LoopEnd { start_index: 0usize },
    ]
}

/// The byte sequence `v, v - 1, ..., 1`.
pub open spec fn countdown_outputs(v: u8) -> Seq<u8>
    decreases v,
{
    if v == 0 {
        Seq::empty()
    } else {
        seq![v].add(countdown_outputs((v - 1) as u8))
    }
}

/// A loop over a decrementing counter runs its body once per count: started
/// on a cell holding `v`, the countdown loop halts after outputting exactly
/// `v, v - 1, ..., 1` (one output per pass through the body), with the guard
/// cell at zero and everything else unchanged.
pub proof fn lemma_counting_loop(s: ExecState)
    requires
        s.pc == 0,
        s.pointer < s.cells.len(),
    ensures
        halts(countdown_program(), s),
        outcome(countdown_program(), s) matches RunResult::Halted(f) && f.cells
            == s.cells.update(s.pointer as int, 0u8) && f.pointer == s.pointer && f.inputs
            == s.inputs && f.outputs == s.outputs.add(
            countdown_outputs(s.cells[s.pointer as int]),
        ),
    decreases s.cells[s.pointer as int],
{
    let prog = countdown_program();
    let p = s.pointer as int;
    let v = s.cells[p];
    if v == 0 {
        lemma_loop_skipped_when_zero(prog, s, 4);
        assert(s.cells.update(p, 0u8) =~= s.cells);
        assert(s.outputs.add(countdown_outputs(0u8)) =~= s.outputs);
    } else {
        // One pass through the body: enter, output v, decrement to v - 1,
        // then jump back (or fall out when the cell reached zero).
        let s1 = ExecState { pc: 1nat, ..s };
        assert(apply(prog[0], s) == StepResult::Proceed(s1));
        lemma_run_step(prog, s, 0, s);
        let s2 = ExecState { outputs: s.outputs.push(v), pc: 2nat, ..s1 };
        assert(apply(prog[1], s1) == StepResult::Proceed(s2));
        lemma_run_step(prog, s, 1, s1);
        let w = (v - 1) as u8;
        let s3 = ExecState { cells: s.cells.update(p, w), pc: 3nat, ..s2 };
        assert(apply(prog[2], s2) == StepResult::Proceed(s3)) by {
            assert((s2.cells[p] + (-1i64)) % 256 == w as int);
            assert(apply(prog[2], s2)->Proceed_0 =~= s3);
        }
        lemma_run_step(prog, s, 2, s2);
        let s4 = ExecState {
            pc: if w != 0 {
                0nat
            } else {
                4nat
            },
            ..s3
        };
        assert(apply(prog[3], s3) == StepResult::Proceed(s4));
        lemma_run_step(prog, s, 3, s3);
        assert(run(prog, s, 4) == RunResult::Running(s4));
        if w == 0 {
            lemma_run_step(prog, s, 4, s4);
            assert(run(prog, s, 5) == RunResult::Halted(s4));
            lemma_outcome_of(prog, s, 5);
            assert(s4.outputs =~= s.outputs.add(countdown_outputs(v))) by {
                assert(countdown_outputs(v) == seq![v].add(countdown_outputs(0u8)));
                assert(countdown_outputs(0u8) =~= Seq::<u8>::empty());
            }
        } else {
            lemma_counting_loop(s4);
            lemma_outcome_from(prog, s, 4, s4);
            let f = outcome(prog, s4)->Halted_0;
            assert(f.cells =~= s.cells.update(p, 0u8)) by {
                assert(s4.cells.update(p, 0u8) =~= s.cells.update(p, 0u8));
            }
            assert(f.outputs =~= s.outputs.add(countdown_outputs(v))) by {
                assert(countdown_outputs(v) == seq![v].add(countdown_outputs(w)));
            }
        }
    }
}

} // verus!
