//! Laws of the preprocessor: what whole token streams fold into.

use vstd::prelude::*;

use crate::command::Command;
use crate::command::RawCommand;
use crate::preprocess::Error;
use crate::preprocess::PreState;
use crate::preprocess::close_loop;
use crate::preprocess::finalize;
use crate::preprocess::open_loop;
use crate::preprocess::merge_data;
use crate::preprocess::merge_move;
use crate::preprocess::run_tokens;
use crate::preprocess::step;

verus! {

/// The signed sum of the pointer-move tokens in a stream: +1 for each
/// forward move, -1 for each backward move.
pub open spec fn net_move(raws: Seq<RawCommand>) -> int
    decreases raws.len(),
{
    if raws.len() == 0 {
        0
    } else {
        (if raws[0] is IncrementPointer {
            1int
        } else if raws[0] is DecrementPointer {
            -1int
        } else {
            0int
        }) + net_move(raws.skip(1))
    }
}

/// The signed sum of the data-edit tokens in a stream: +1 for each
/// increment, -1 for each decrement.
pub open spec fn net_data(raws: Seq<RawCommand>) -> int
    decreases raws.len(),
{
    if raws.len() == 0 {
        0
    } else {
        (if raws[0] is IncrementData {
            1int
        } else if raws[0] is DecrementData {
            -1int
        } else {
            0int
        }) + net_data(raws.skip(1))
    }
}

/// How many more loop starts than loop ends a stream holds.
pub open spec fn loop_surplus(raws: Seq<RawCommand>) -> int
    decreases raws.len(),
{
    if raws.len() == 0 {
        0
    } else {
        (if raws[0] is LoopStart {
            1int
        } else if raws[0] is LoopEnd {
            -1int
        } else {
            0int
        }) + loop_surplus(raws.skip(1))
    }
}

proof fn lemma_move_run_extends(s: PreState, raws: Seq<RawCommand>, k: i64)
    requires
        s.pending == Some(Command::MovePointer { offset: k }),
        forall|i: int|
            0 <= i < raws.len() ==> raws[i] is IncrementPointer || raws[i] is DecrementPointer,
        (if k >= 0 {
            k as int
        } else {
            -(k as int)
        }) + raws.len() <= i64::MAX,
    ensures
        run_tokens(s, raws) == Ok::<PreState, Error>(
            PreState {
                commands: s.commands,
                open_loops: s.open_loops,
                pending: Some(Command::MovePointer { offset: (k + net_move(raws)) as i64 }),
            },
        ),
        -(raws.len() as int) <= net_move(raws) <= raws.len() as int,
    decreases raws.len(),
{
    if raws.len() == 0 {
        assert(s =~= PreState {
            commands: s.commands,
            open_loops: s.open_loops,
            pending: Some(Command::MovePointer { offset: (k + net_move(raws)) as i64 }),
        });
    } else {
        let d: int = if raws[0] is IncrementPointer {
            1
        } else {
            -1
        };
        let t = merge_move(s, d);
        assert(t =~= PreState {
            commands: s.commands,
            open_loops: s.open_loops,
            pending: Some(Command::MovePointer { offset: (k + d) as i64 }),
        });
        lemma_move_run_extends(t, raws.skip(1), (k + d) as i64);
    }
}

/// For a non-empty stream of nothing but pointer-move tokens (of a length a
/// pointer offset can absorb), preprocessing succeeds and the finished
/// program is exactly one `MovePointer` whose offset is the signed sum of
/// the individual steps.
pub proof fn lemma_pointer_moves_merge(raws: Seq<RawCommand>)
    requires
        0 < raws.len() <= i64::MAX,
        forall|i: int|
            0 <= i < raws.len() ==> raws[i] is IncrementPointer || raws[i] is DecrementPointer,
    ensures
        -(raws.len() as int) <= net_move(raws) <= raws.len() as int,
        run_tokens(PreState::init(), raws) == Ok::<PreState, Error>(
            PreState {
                commands: Seq::empty(),
                open_loops: Seq::empty(),
                pending: Some(Command::MovePointer { offset: net_move(raws) as i64 }),
            },
        ),
        finalize(run_tokens(PreState::init(), raws)->Ok_0) == Ok::<Seq<Command>, Error>(
            seq![Command::MovePointer { offset: net_move(raws) as i64 }],
        ),
{
    let d: int = if raws[0] is IncrementPointer {
        1
    } else {
        -1
    };
    let t = merge_move(PreState::init(), d);
    assert(t =~= PreState {
        commands: Seq::empty(),
        open_loops: Seq::empty(),
        pending: Some(Command::MovePointer { offset: d as i64 }),
    });
    lemma_move_run_extends(t, raws.skip(1), d as i64);
    let u = run_tokens(PreState::init(), raws)->Ok_0;
    assert(u.flushed() =~= seq![Command::MovePointer { offset: net_move(raws) as i64 }]);
}

proof fn lemma_data_run_extends(s: PreState, raws: Seq<RawCommand>, k: i64)
    requires
        s.pending == Some(Command::ModifyData { modifier: k }),
        forall|i: int|
            0 <= i < raws.len() ==> raws[i] is IncrementData || raws[i] is DecrementData,
        (if k >= 0 {
            k as int
        } else {
            -(k as int)
        }) + raws.len() <= i64::MAX,
    ensures
        run_tokens(s, raws) == Ok::<PreState, Error>(
            PreState {
                commands: s.commands,
                open_loops: s.open_loops,
                pending: Some(Command::ModifyData { modifier: (k + net_data(raws)) as i64 }),
            },
        ),
        -(raws.len() as int) <= net_data(raws) <= raws.len() as int,
    decreases raws.len(),
{
    if raws.len() == 0 {
        assert(s =~= PreState {
            commands: s.commands,
            open_loops: s.open_loops,
            pending: Some(Command::ModifyData { modifier: (k + net_data(raws)) as i64 }),
        });
    } else {
        let d: int = if raws[0] is IncrementData {
            1
        } else {
            -1
        };
        let t = merge_data(s, d);
        assert(t =~= PreState {
            commands: s.commands,
            open_loops: s.open_loops,
            pending: Some(Command::ModifyData { modifier: (k + d) as i64 }),
        });
        lemma_data_run_extends(t, raws.skip(1), (k + d) as i64);
    }
}

/// For a non-empty stream of nothing but data-edit tokens (of a length a
/// cell modifier can absorb), preprocessing succeeds and the finished
/// program is exactly one `ModifyData` whose modifier is the signed sum of
/// the individual edits.
pub proof fn lemma_data_edits_merge(raws: Seq<RawCommand>)
    requires
        0 < raws.len() <= i64::MAX,
        forall|i: int|
            0 <= i < raws.len() ==> raws[i] is IncrementData || raws[i] is DecrementData,
    ensures
        -(raws.len() as int) <= net_data(raws) <= raws.len() as int,
        run_tokens(PreState::init(), raws) == Ok::<PreState, Error>(
            PreState {
                commands: Seq::empty(),
                open_loops: Seq::empty(),
                pending: Some(Command::ModifyData { modifier: net_data(raws) as i64 }),
            },
        ),
        finalize(run_tokens(PreState::init(), raws)->Ok_0) == Ok::<Seq<Command>, Error>(
            seq![Command::ModifyData { modifier: net_data(raws) as i64 }],
        ),
{
    let d: int = if raws[0] is IncrementData {
        1
    } else {
        -1
    };
    let t = merge_data(PreState::init(), d);
    assert(t =~= PreState {
        commands: Seq::empty(),
        open_loops: Seq::empty(),
        pending: Some(Command::ModifyData { modifier: d as i64 }),
    });
    lemma_data_run_extends(t, raws.skip(1), d as i64);
    let u = run_tokens(PreState::init(), raws)->Ok_0;
    assert(u.flushed() =~= seq![Command::ModifyData { modifier: net_data(raws) as i64 }]);
}

proof fn lemma_surplus_counts_open_loops(s: PreState, raws: Seq<RawCommand>, t: PreState)
    requires
        run_tokens(s, raws) == Ok::<PreState, Error>(t),
    ensures
        t.open_loops.len() == s.open_loops.len() + loop_surplus(raws),
        -(raws.len() as int) <= loop_surplus(raws) <= raws.len() as int,
    decreases raws.len(),
{
    if raws.len() > 0 {
        let u = step(s, raws[0])->Ok_0;
        lemma_surplus_counts_open_loops(u, raws.skip(1), t);
    }
}

/// Token processing fails exactly on a loop end that arrives with no open
/// loop start, and the failure it reports is `NoLoopStart`.
pub proof fn lemma_loop_end_needs_open_start(s: PreState, raw: RawCommand)
    ensures
        step(s, raw) is Err <==> (raw is LoopEnd && s.open_loops.len() == 0),
        step(s, raw) is Err ==> step(s, raw) == Err::<PreState, Error>(Error::NoLoopStart),
{
}

/// A token stream that processes in full leaves exactly its surplus of loop
/// starts over loop ends open, and when that surplus is positive,
/// finalization fails with `OpenLoops` carrying that count.
pub proof fn lemma_open_loops_reported(raws: Seq<RawCommand>, t: PreState)
    requires
        raws.len() <= usize::MAX,
        run_tokens(PreState::init(), raws) == Ok::<PreState, Error>(t),
    ensures
        t.open_loops.len() == loop_surplus(raws),
        loop_surplus(raws) > 0 ==> finalize(t) == Err::<Seq<Command>, Error>(
            Error::OpenLoops(loop_surplus(raws) as usize),
        ),
        loop_surplus(raws) == 0 ==> finalize(t) == Ok::<Seq<Command>, Error>(t.flushed()),
{
    lemma_surplus_counts_open_loops(PreState::init(), raws, t);
}

/// The only failure a whole token stream can produce is `NoLoopStart`.
pub proof fn lemma_run_tokens_err(s: PreState, raws: Seq<RawCommand>)
    requires
        run_tokens(s, raws) is Err,
    ensures
        run_tokens(s, raws) == Err::<PreState, Error>(Error::NoLoopStart),
    decreases raws.len(),
{
    if raws.len() > 0 {
        match step(s, raws[0]) {
            Ok(t) => lemma_run_tokens_err(t, raws.skip(1)),
            Err(_) => lemma_loop_end_needs_open_start(s, raws[0]),
        }
    }
}

/// The loop commands standing at position `i` of a finished program refer to
/// their matching partner.
pub open spec fn resolved_at(prog: Seq<Command>, i: int) -> bool {
    match prog[i] {
        Command::LoopStart { end_index } => 1 <= end_index <= prog.len() && i + 1 < end_index
            && prog[end_index - 1] == (Command::LoopEnd { start_index: i as usize }),
        Command::LoopEnd { start_index } => start_index < i && prog[start_index as int] == (
        Command::LoopStart { end_index: (i + 1) as usize }),
        _ => true,
    }
}

/// Loop targets are mutually consistent everywhere: each `LoopStart`'s
/// `end_index` points one past its matching `LoopEnd`, whose `start_index`
/// points back at that `LoopStart`.
pub open spec fn loops_resolved(prog: Seq<Command>) -> bool {
    forall|i: int| 0 <= i < prog.len() ==> #[trigger] resolved_at(prog, i)
}

/// Open-loop positions are recorded oldest first, with no repeats.
pub open spec fn strictly_increasing(open: Seq<usize>) -> bool {
    forall|j: int, k: int| 0 <= j < k < open.len() ==> open[j] < open[k]
}

/// Only commands that later tokens may still merge into (never a loop
/// command) sit as the pending run.
pub open spec fn pending_mergeable(p: Option<Command>) -> bool {
    match p {
        Some(Command::LoopStart { .. }) => false,
        Some(Command::LoopEnd { .. }) => false,
        _ => true,
    }
}

/// Loop targets in a command list still under construction: positions
/// recorded as open loops hold an unpatched placeholder; everything else is
/// already mutually consistent.
pub open spec fn partial_resolved_at(cs: Seq<Command>, open: Seq<usize>, i: int) -> bool {
    match cs[i] {
        Command::LoopStart { end_index } => if open.contains(i as usize) {
            end_index == 0
        } else {
            1 <= end_index <= cs.len() && i + 1 < end_index
                && cs[end_index - 1] == (Command::LoopEnd { start_index: i as usize })
        },
        Command::LoopEnd { start_index } => start_index < i && cs[start_index as int] == (
        Command::LoopStart { end_index: (i + 1) as usize }),
        _ => true,
    }
}

/// The invariant a preprocessor state keeps while tokens are folded in.
pub open spec fn loop_inv(s: PreState) -> bool {
    &&& s.wf()
    &&& strictly_increasing(s.open_loops)
    &&& pending_mergeable(s.pending)
    &&& forall|j: int|
        0 <= j < s.open_loops.len() ==> s.commands[#[trigger] s.open_loops[j] as int] == (
        Command::LoopStart { end_index: 0 })
    &&& forall|i: int| 0 <= i < s.commands.len() ==> #[trigger] partial_resolved_at(
        s.commands,
        s.open_loops,
        i,
    )
}

/// How many commands the state holds, the pending run included.
pub open spec fn emitted(s: PreState) -> int {
    s.commands.len() + if s.pending is Some {
        1int
    } else {
        0int
    }
}

proof fn lemma_append_nonloop_keeps_partial(cs: Seq<Command>, open: Seq<usize>, c: Command)
    requires
        forall|i: int| 0 <= i < cs.len() ==> #[trigger] partial_resolved_at(cs, open, i),
        !(c is LoopStart),
        !(c is LoopEnd),
    ensures
        forall|i: int|
            0 <= i < cs.push(c).len() ==> #[trigger] partial_resolved_at(cs.push(c), open, i),
{
    let cs2 = cs.push(c);
    assert forall|i: int| 0 <= i < cs2.len() implies #[trigger] partial_resolved_at(
        cs2,
        open,
        i,
    ) by {
        if i < cs.len() {
            assert(partial_resolved_at(cs, open, i));
            assert(cs2[i] == cs[i]);
            match cs[i] {
                Command::LoopStart { end_index } => {
                    if !open.contains(i as usize) {
                        assert(cs2[end_index - 1] == cs[end_index - 1]);
                    }
                },
                Command::LoopEnd { start_index } => {
                    assert(cs2[start_index as int] == cs[start_index as int]);
                },
                _ => {},
            }
        } else {
            assert(cs2[i] == c);
        }
    }
}

proof fn lemma_step_preserves_loop_inv(s: PreState, raw: RawCommand, t: PreState)
    requires
        loop_inv(s),
        emitted(s) + 1 <= usize::MAX,
        step(s, raw) == Ok::<PreState, Error>(t),
    ensures
        loop_inv(t),
        emitted(t) <= emitted(s) + 1,
{
    let cs = s.flushed();
    if s.pending is Some {
        lemma_append_nonloop_keeps_partial(s.commands, s.open_loops, s.pending->0);
    }
    assert(forall|i: int|
        0 <= i < cs.len() ==> #[trigger] partial_resolved_at(cs, s.open_loops, i));
    match raw {
        RawCommand::IncrementPointer | RawCommand::DecrementPointer | RawCommand::IncrementData
            | RawCommand::DecrementData => {
            // The merged run stays pending; at most one old pending command is
            // flushed, and it is never a loop command.
            if t.commands != s.commands {
                lemma_append_nonloop_keeps_partial(s.commands, s.open_loops, s.pending->0);
            }
        },
        RawCommand::Output | RawCommand::Input => {
        },
        RawCommand::LoopStart => {
            let n = cs.len() as int;
            let cs2 = cs.push(Command::LoopStart { end_index: 0 });
            let open2 = s.open_loops.push(n as usize);
            assert(t == open_loop(s));
            assert(open2.contains(n as usize)) by {
                assert(open2[s.open_loops.len() as int] == n as usize);
            }
            assert forall|j: int|
                0 <= j < open2.len() implies cs2[#[trigger] open2[j] as int] == (
            Command::LoopStart { end_index: 0 }) by {
                if j < s.open_loops.len() {
                    assert(open2[j] == s.open_loops[j]);
                    assert((s.open_loops[j] as int) < s.commands.len());
                    assert(cs2[s.open_loops[j] as int] == cs[s.open_loops[j] as int]);
                    assert(cs[s.open_loops[j] as int] == s.commands[s.open_loops[j] as int]);
                } else {
                    assert(open2[j] == n as usize);
                }
            }
            assert forall|i: int| 0 <= i < cs2.len() implies #[trigger] partial_resolved_at(
                cs2,
                open2,
                i,
            ) by {
                if i < n {
                    assert(partial_resolved_at(cs, s.open_loops, i));
                    assert(cs2[i] == cs[i]);
                    match cs[i] {
                        Command::LoopStart { end_index } => {
                            if open2.contains(i as usize) && !s.open_loops.contains(i as usize) {
                                // The only new open position is n, and i < n.
                                let w = choose|w: int|
                                    0 <= w < open2.len() && open2[w] == i as usize;
                                assert(w == s.open_loops.len());
                                assert(false);
                            }
                            if !open2.contains(i as usize) {
                                assert(!s.open_loops.contains(i as usize)) by {
                                    if s.open_loops.contains(i as usize) {
                                        let w = choose|w: int|
                                            0 <= w < s.open_loops.len() && s.open_loops[w]
                                                == i as usize;
                                        assert(open2[w] == i as usize);
                                    }
                                }
                                assert(cs2[end_index - 1] == cs[end_index - 1]);
                            }
                        },
                        Command::LoopEnd { start_index } => {
                            assert(cs2[start_index as int] == cs[start_index as int]);
                        },
                        _ => {},
                    }
                } else {
                    assert(cs2[i] == (Command::LoopStart { end_index: 0 }));
                    assert(open2.contains(i as usize));
                }
            }
        },
        RawCommand::LoopEnd => {
            lemma_close_loop_preserves_loop_inv(s);
        },
        RawCommand::Noop => {
        },
    }
}

proof fn lemma_close_loop_preserves_loop_inv(s: PreState)
    requires
        loop_inv(s),
        emitted(s) + 1 <= usize::MAX,
        s.open_loops.len() > 0,
    ensures
        loop_inv(close_loop(s)),
        emitted(close_loop(s)) <= emitted(s) + 1,
{
    let cs = s.flushed();
    if s.pending is Some {
        lemma_append_nonloop_keeps_partial(s.commands, s.open_loops, s.pending->0);
    }
    assert(forall|i: int|
        0 <= i < cs.len() ==> #[trigger] partial_resolved_at(cs, s.open_loops, i));
    let t = close_loop(s);
    let last = s.open_loops.len() - 1;
    let idx = s.open_loops[last] as int;
    assert(s.commands[idx] == (Command::LoopStart { end_index: 0 }));
    assert(cs[idx] == s.commands[idx]);
    let n = cs.len() as int;
    assert(idx < n);
    let cs2 = cs.push(Command::LoopEnd { start_index: idx as usize }).update(
        idx,
        Command::LoopStart { end_index: (n + 1) as usize },
    );
    let open2 = s.open_loops.drop_last();
    assert(t.commands == cs2 && t.open_loops == open2 && t.pending is None);
    // The patched position is not among the still-open ones.
    assert forall|j: int| 0 <= j < open2.len() implies (open2[j] as int) < idx by {
        assert(s.open_loops[j] < s.open_loops[last]);
    }
    assert forall|j: int|
        0 <= j < open2.len() implies cs2[#[trigger] open2[j] as int] == (Command::LoopStart {
        end_index: 0,
    }) by {
        assert(open2[j] == s.open_loops[j]);
        assert(cs2[open2[j] as int] == cs[open2[j] as int]);
    }
    assert forall|i: int| 0 <= i < cs2.len() implies #[trigger] partial_resolved_at(
        cs2,
        open2,
        i,
    ) by {
        if i == idx {
            assert(cs2[i] == (Command::LoopStart { end_index: (n + 1) as usize }));
            assert(!open2.contains(i as usize)) by {
                if open2.contains(i as usize) {
                    let w = choose|w: int|
                        0 <= w < open2.len() && open2[w] == i as usize;
                    assert((open2[w] as int) < idx);
                }
            }
            assert(cs2[(n + 1) - 1] == (Command::LoopEnd { start_index: i as usize }));
        } else if i == n {
            assert(cs2[i] == (Command::LoopEnd { start_index: idx as usize }));
            assert(cs2[idx] == (Command::LoopStart { end_index: (n + 1) as usize }));
        } else {
            assert(partial_resolved_at(cs, s.open_loops, i));
            assert(cs2[i] == cs[i]);
            match cs[i] {
                Command::LoopStart { end_index } => {
                    if s.open_loops.contains(i as usize) {
                        // Still an unpatched placeholder: i is open in s and
                        // is not the popped position, so it is open in t too.
                        assert(end_index == 0);
                        let w = choose|w: int|
                            0 <= w < s.open_loops.len() && s.open_loops[w] == i as usize;
                        assert(w != last);
                        assert(open2[w] == i as usize);
                        assert(open2.contains(i as usize));
                    } else {
                        assert(!open2.contains(i as usize)) by {
                            if open2.contains(i as usize) {
                                let w = choose|w: int|
                                    0 <= w < open2.len() && open2[w] == i as usize;
                                assert(s.open_loops[w] == i as usize);
                            }
                        }
                        // The patch wrote a LoopStart, so it cannot be this
                        // LoopStart's partner LoopEnd.
                        assert(cs[end_index - 1] == (Command::LoopEnd { start_index: i as usize }));
                        assert(end_index - 1 != idx);
                        assert(cs2[end_index - 1] == cs[end_index - 1]);
                    }
                },
                Command::LoopEnd { start_index } => {
                    // The patched position held a placeholder with target 0,
                    // so it cannot be this LoopEnd's partner LoopStart.
                    assert(cs[start_index as int] == (Command::LoopStart {
                        end_index: (i + 1) as usize,
                    }));
                    assert((i + 1) as usize != 0usize);
                    assert(start_index as int != idx);
                    assert(cs2[start_index as int] == cs[start_index as int]);
                },
                _ => {},
            }
        }
    }
}

proof fn lemma_run_preserves_loop_inv(s: PreState, raws: Seq<RawCommand>, t: PreState)
    requires
        loop_inv(s),
        emitted(s) + raws.len() <= usize::MAX,
        run_tokens(s, raws) == Ok::<PreState, Error>(t),
    ensures
        loop_inv(t),
        emitted(t) <= emitted(s) + raws.len(),
    decreases raws.len(),
{
    if raws.len() > 0 {
        let u = step(s, raws[0])->Ok_0;
        lemma_step_preserves_loop_inv(s, raws[0], u);
        lemma_run_preserves_loop_inv(u, raws.skip(1), t);
    }
}

/// In a program the preprocessor finished, loop targets are mutually
/// consistent: wherever a `LoopStart { end_index }` stands at position `i`,
/// the command at `end_index - 1` is its matching `LoopEnd { start_index: i }`,
/// and wherever a `LoopEnd { start_index }` stands at position `i`, the
/// command at `start_index` is its matching `LoopStart { end_index: i + 1 }`.
pub proof fn lemma_loop_targets_mutual(raws: Seq<RawCommand>, t: PreState, prog: Seq<Command>)
    requires
        raws.len() <= usize::MAX,
        run_tokens(PreState::init(), raws) == Ok::<PreState, Error>(t),
        finalize(t) == Ok::<Seq<Command>, Error>(prog),
    ensures
        loops_resolved(prog),
{
    assert(loop_inv(PreState::init()));
    lemma_run_preserves_loop_inv(PreState::init(), raws, t);
    if t.pending is Some {
        lemma_append_nonloop_keeps_partial(t.commands, t.open_loops, t.pending->0);
    }
    assert(prog == t.flushed());
    assert forall|i: int| 0 <= i < prog.len() implies #[trigger] resolved_at(prog, i) by {
        assert(partial_resolved_at(prog, t.open_loops, i));
        assert(!t.open_loops.contains(i as usize));
    }
}

} // verus!
