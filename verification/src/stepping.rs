//! Running a program one step at a time.
//!
//! A step carries out one instruction, or enters, repeats or leaves one
//! loop. Where the run stands in the program is a stack of frames: the
//! program itself at the bottom, above it the body of every loop that the
//! run is inside, each with the index of its next instruction.
//!
//! Steps need no bound, so a program that never ends can be run for as
//! long as wanted. Steps and bounded runs agree: where a bounded run ends,
//! steps arrive (`lemma_steps_follow_run`), and where steps end, a bounded
//! run does (`lemma_run_follows_steps`).

use crate::command::Instr;
use crate::machine::{
    halts, lemma_outcome, lemma_run_loop_monotone, lemma_run_monotone, outcome, run, run_loop,
    Machine, Outcome,
};
use vstd::prelude::*;

verus! {

/// A sequence of instructions and how far the run is in it.
pub struct Frame {
    pub body: Seq<Instr>,
    pub next: nat,
}

/// A run in progress: the machine, and where the run stands in the
/// program.
pub struct Config {
    pub machine: Machine,
    /// The program at the bottom, the body of the innermost loop on top.
    pub frames: Seq<Frame>,
}

/// What a run is doing after a step.
#[derive(Debug, Clone, Copy, PartialEq, Eq)]
pub enum Status {
    /// There is more to do.
    Running,
    /// The program has run to its end.
    Finished,
    /// The next instruction is a `Read`, which is not supported.
    Unsupported,
}

/// Where a run of `program` stands before its first step.
pub open spec fn at_start(program: Seq<Instr>) -> Seq<Frame> {
    seq![Frame { body: program, next: 0 }]
}

/// The start of the run of `program` on `machine`.
pub open spec fn start(program: Seq<Instr>, machine: Machine) -> Config {
    Config { machine, frames: at_start(program) }
}

/// One step. At the end of the program and at a `Read` nothing changes.
pub open spec fn step(config: Config) -> (Config, Status) {
    if config.frames.len() == 0 {
        (config, Status::Finished)
    } else {
        let frame = config.frames.last();
        let below = config.frames.drop_last();
        if frame.next >= frame.body.len() {
            if below.len() == 0 {
                (config, Status::Finished)
            } else if config.machine.cell() != 0 {
                (Config { frames: below.push(Frame { next: 0, ..frame }), ..config }, Status::Running)
            } else {
                (Config { frames: below, ..config }, Status::Running)
            }
        } else {
            let advanced = below.push(Frame { next: frame.next + 1, ..frame });
            match frame.body[frame.next as int] {
                Instr::MoveRight(count) => (
                    Config { machine: config.machine.move_right(count), frames: advanced },
                    Status::Running,
                ),
                Instr::MoveLeft(count) => (
                    Config { machine: config.machine.move_left(count), frames: advanced },
                    Status::Running,
                ),
                Instr::Increment(count) => (
                    Config { machine: config.machine.increment(count), frames: advanced },
                    Status::Running,
                ),
                Instr::Decrement(count) => (
                    Config { machine: config.machine.decrement(count), frames: advanced },
                    Status::Running,
                ),
                Instr::Print => (
                    Config { machine: config.machine.print(), frames: advanced },
                    Status::Running,
                ),
                Instr::Read => (config, Status::Unsupported),
                Instr::Loop(body) => if config.machine.cell() != 0 {
                    (
                        Config { frames: advanced.push(Frame { body, next: 0 }), ..config },
                        Status::Running,
                    )
                } else {
                    (Config { frames: advanced, ..config }, Status::Running)
                },
            }
        }
    }
}

/// At most `budget` steps: fewer where the run ends before.
pub open spec fn advance(config: Config, budget: nat) -> (Config, Status)
    decreases budget,
{
    if budget == 0 {
        (config, Status::Running)
    } else {
        let (next, status) = step(config);
        if status is Running {
            advance(next, (budget - 1) as nat)
        } else {
            (next, status)
        }
    }
}

/// The run has ended at `config`: a step changes nothing and says how.
pub open spec fn ended(config: Config) -> bool {
    step(config).0 == config && !(step(config).1 is Running)
}

/// Steps add up.
pub proof fn lemma_advance_add(config: Config, first: nat, second: nat)
    requires
        advance(config, first).1 is Running,
    ensures
        advance(config, first + second) == advance(advance(config, first).0, second),
    decreases first,
{
    if first > 0 {
        let (next, status) = step(config);
        lemma_advance_add(next, (first - 1) as nat, second);
    }
}

/// The steps through one frame follow the run of what is left of it: from
/// `machine`, with the frame at `next` above `below`, some number of steps
/// arrives where the run of the rest of `body` ends. The number and the
/// place are returned.
proof fn lemma_frame_follows_run(
    body: Seq<Instr>,
    next: nat,
    machine: Machine,
    fuel: nat,
    below: Seq<Frame>,
) -> (reached: (nat, Config))
    requires
        next <= body.len(),
        !(run(body.subrange(next as int, body.len() as int), machine, fuel) is OutOfFuel),
    ensures
        advance(Config { machine, frames: below.push(Frame { body, next }) }, reached.0) == (
            reached.1,
            Status::Running,
        ),
        match run(body.subrange(next as int, body.len() as int), machine, fuel) {
            Outcome::Finished(after) => reached.1 == Config {
                machine: after,
                frames: below.push(Frame { body, next: body.len() }),
            },
            Outcome::Unsupported(after) => reached.1.machine == after && step(reached.1) == (
                reached.1,
                Status::Unsupported,
            ),
            Outcome::OutOfFuel => false,
        },
    decreases fuel, body, body.len() - next,
{
    let config = Config { machine, frames: below.push(Frame { body, next }) };
    let left = body.subrange(next as int, body.len() as int);
    assert(config.frames.last() == Frame { body, next });
    assert(config.frames.drop_last() =~= below);
    if next == body.len() {
        (0, config)
    } else {
        let rest = body.subrange(next as int + 1, body.len() as int);
        assert(left.drop_first() =~= rest);
        assert(left[0] == body[next as int]);
        let advanced = below.push(Frame { body, next: next + 1 });
        match body[next as int] {
            Instr::Read => (0, config),
            Instr::Loop(inner) => {
                if machine.cell() == 0 {
                    let (count, place) = lemma_frame_follows_run(
                        body,
                        next + 1,
                        machine,
                        fuel,
                        below,
                    );
                    (count + 1, place)
                } else {
                    let entered = Config {
                        machine,
                        frames: advanced.push(Frame { body: inner, next: 0 }),
                    };
                    let (rounds, left_loop) = lemma_loop_follows_run(inner, machine, fuel, advanced);
                    match run_loop(inner, machine, fuel) {
                        Outcome::Finished(after) => {
                            let (count, place) = lemma_frame_follows_run(
                                body,
                                next + 1,
                                after,
                                fuel,
                                below,
                            );
                            lemma_advance_add(entered, rounds, count);
                            (1 + rounds + count, place)
                        },
                        _ => (1 + rounds, left_loop),
                    }
                }
            },
            _ => {
                let (count, place) = lemma_frame_follows_run(
                    body,
                    next + 1,
                    step(config).0.machine,
                    fuel,
                    below,
                );
                (count + 1, place)
            },
        }
    }
}

/// The steps through a loop follow its run: from `machine`, whose current
/// cell is not zero, with the loop's body just entered above `below`, some
/// number of steps arrives where the run of the loop ends, the body left
/// behind.
proof fn lemma_loop_follows_run(
    body: Seq<Instr>,
    machine: Machine,
    fuel: nat,
    below: Seq<Frame>,
) -> (reached: (nat, Config))
    requires
        machine.cell() != 0,
        below.len() > 0,
        !(run_loop(body, machine, fuel) is OutOfFuel),
    ensures
        advance(Config { machine, frames: below.push(Frame { body, next: 0 }) }, reached.0) == (
            reached.1,
            Status::Running,
        ),
        match run_loop(body, machine, fuel) {
            Outcome::Finished(after) => reached.1 == Config { machine: after, frames: below },
            Outcome::Unsupported(after) => reached.1.machine == after && step(reached.1) == (
                reached.1,
                Status::Unsupported,
            ),
            Outcome::OutOfFuel => false,
        },
    decreases fuel, body, 0int,
{
    let entered = Config { machine, frames: below.push(Frame { body, next: 0 }) };
    assert(body.subrange(0, body.len() as int) =~= body);
    let (count, place) = lemma_frame_follows_run(body, 0, machine, (fuel - 1) as nat, below);
    match run(body, machine, (fuel - 1) as nat) {
        Outcome::Finished(after) => {
            let at_end = Frame { body, next: body.len() };
            assert(place.frames.last() == at_end);
            assert(place.frames.drop_last() =~= below);
            if after.cell() != 0 {
                let again = Config { machine: after, frames: below.push(Frame { body, next: 0 }) };
                assert(step(place) == (again, Status::Running));
                let (more, left_loop) = lemma_loop_follows_run(
                    body,
                    after,
                    (fuel - 1) as nat,
                    below,
                );
                assert(advance(place, 1 + more) == advance(again, more));
                lemma_advance_add(entered, count, 1 + more);
                (count + 1 + more, left_loop)
            } else {
                let left_loop = Config { machine: after, frames: below };
                assert(step(place) == (left_loop, Status::Running));
                assert(advance(left_loop, 0) == (left_loop, Status::Running));
                assert(advance(place, 1) == advance(left_loop, 0));
                lemma_advance_add(entered, count, 1);
                (count + 1, left_loop)
            }
        },
        _ => (count, place),
    }
}

/// Steps arrive where the run does: where the run of `program` from
/// `machine` ends within `fuel`, some number of steps from the start
/// arrives at a place where the run has ended, with the machine as the run
/// left it and the same way of ending. The number and the place are
/// returned.
pub proof fn lemma_steps_follow_run(program: Seq<Instr>, machine: Machine, fuel: nat) -> (reached:
    (nat, Config))
    requires
        !(run(program, machine, fuel) is OutOfFuel),
    ensures
        advance(start(program, machine), reached.0) == (reached.1, Status::Running),
        ended(reached.1),
        match run(program, machine, fuel) {
            Outcome::Finished(after) => reached.1.machine == after && step(reached.1).1
                is Finished,
            Outcome::Unsupported(after) => reached.1.machine == after && step(reached.1).1
                is Unsupported,
            Outcome::OutOfFuel => false,
        },
{
    assert(program.subrange(0, program.len() as int) =~= program);
    assert(start(program, machine).frames =~= Seq::<Frame>::empty().push(
        Frame { body: program, next: 0 },
    ));
    let reached = lemma_frame_follows_run(program, 0, machine, fuel, Seq::empty());
    match run(program, machine, fuel) {
        Outcome::Finished(after) => {
            let at_end = Frame { body: program, next: program.len() };
            assert(reached.1.frames.last() == at_end);
            assert(reached.1.frames.drop_last() =~= Seq::<Frame>::empty());
        },
        _ => {},
    }
    reached
}

/// With a budget beyond the end of a run, the steps stop at the end.
pub proof fn lemma_advance_past_end(config: Config, count: nat, end: Config, budget: nat)
    requires
        advance(config, count) == (end, Status::Running),
        ended(end),
        budget > count,
    ensures
        advance(config, budget) == step(end),
{
    lemma_advance_add(config, count, (budget - count) as nat);
}

/// With a budget short of the end of a run, the steps are all taken, and
/// the rest of the way is that much shorter.
pub proof fn lemma_advance_short_of_end(config: Config, count: nat, budget: nat)
    requires
        advance(config, count).1 is Running,
        budget <= count,
    ensures
        advance(config, budget).1 is Running,
        advance(advance(config, budget).0, (count - budget) as nat) == advance(config, count),
    decreases budget,
{
    if budget > 0 {
        lemma_advance_short_of_end(step(config).0, (count - 1) as nat, (budget - 1) as nat);
    }
}

/// What is left of a frame.
spec fn rest_of(frame: Frame) -> Seq<Instr> {
    if frame.next < frame.body.len() {
        frame.body.subrange(frame.next as int, frame.body.len() as int)
    } else {
        Seq::empty()
    }
}

/// The bounded run of all that a run in progress has before it: what is
/// left of the top frame, then what comes after that frame.
spec fn run_on(frames: Seq<Frame>, machine: Machine, fuel: nat) -> Outcome
    decreases frames.len(), 0int,
{
    if frames.len() == 0 {
        Outcome::Finished(machine)
    } else {
        match run(rest_of(frames.last()), machine, fuel) {
            Outcome::Finished(after) => run_after(
                frames.drop_last(),
                frames.last().body,
                after,
                fuel,
            ),
            other => other,
        }
    }
}

/// The bounded run of what comes after a frame over `body` has been run
/// to its end, `below` being the frames under it. With no frame under it,
/// `body` was the program, and nothing comes. Else `body` is a loop's
/// body: the loop runs again while the current cell is not zero, and then
/// comes what the frames below have before them.
spec fn run_after(below: Seq<Frame>, body: Seq<Instr>, machine: Machine, fuel: nat) -> Outcome
    decreases below.len(), 1int,
{
    if below.len() == 0 {
        Outcome::Finished(machine)
    } else {
        match run_loop(body, machine, fuel) {
            Outcome::Finished(left) => run_on(below, left, fuel),
            other => other,
        }
    }
}

proof fn lemma_run_on_monotone(frames: Seq<Frame>, machine: Machine, fuel: nat, more: nat)
    requires
        fuel <= more,
        !(run_on(frames, machine, fuel) is OutOfFuel),
    ensures
        run_on(frames, machine, more) == run_on(frames, machine, fuel),
    decreases frames.len(), 0int,
{
    if frames.len() > 0 {
        lemma_run_monotone(rest_of(frames.last()), machine, fuel, more);
        match run(rest_of(frames.last()), machine, fuel) {
            Outcome::Finished(after) => {
                lemma_run_after_monotone(
                    frames.drop_last(),
                    frames.last().body,
                    after,
                    fuel,
                    more,
                );
            },
            _ => {},
        }
    }
}

proof fn lemma_run_after_monotone(
    below: Seq<Frame>,
    body: Seq<Instr>,
    machine: Machine,
    fuel: nat,
    more: nat,
)
    requires
        fuel <= more,
        !(run_after(below, body, machine, fuel) is OutOfFuel),
    ensures
        run_after(below, body, machine, more) == run_after(below, body, machine, fuel),
    decreases below.len(), 1int,
{
    if below.len() > 0 {
        lemma_run_loop_monotone(body, machine, fuel, more);
        match run_loop(body, machine, fuel) {
            Outcome::Finished(left) => {
                lemma_run_on_monotone(below, left, fuel, more);
            },
            _ => {},
        }
    }
}

/// The run of the frames with `frame` on top, taken apart.
proof fn lemma_run_on_push(below: Seq<Frame>, frame: Frame, machine: Machine, fuel: nat)
    ensures
        run_on(below.push(frame), machine, fuel) == match run(rest_of(frame), machine, fuel) {
            Outcome::Finished(after) => run_after(below, frame.body, after, fuel),
            other => other,
        },
{
    assert(below.push(frame).last() == frame);
    assert(below.push(frame).drop_last() =~= below);
}

/// A step within a frame that takes `machine` to `after` and uses no
/// fuel.
proof fn lemma_step_within(
    below: Seq<Frame>,
    frame: Frame,
    machine: Machine,
    after: Machine,
    fuel: nat,
)
    requires
        frame.next < frame.body.len(),
        run(rest_of(frame), machine, fuel + 1) == run(
            rest_of(Frame { next: frame.next + 1, ..frame }),
            after,
            fuel + 1,
        ),
        !(run_on(below.push(Frame { next: frame.next + 1, ..frame }), after, fuel) is OutOfFuel),
    ensures
        run_on(below.push(frame), machine, fuel + 1) == run_on(
            below.push(Frame { next: frame.next + 1, ..frame }),
            after,
            fuel,
        ),
{
    let advanced = Frame { next: frame.next + 1, ..frame };
    lemma_run_on_monotone(below.push(advanced), after, fuel, fuel + 1);
    lemma_run_on_push(below, frame, machine, fuel + 1);
    lemma_run_on_push(below, advanced, after, fuel + 1);
}

/// A step that enters a loop.
proof fn lemma_step_enters(
    below: Seq<Frame>,
    frame: Frame,
    body: Seq<Instr>,
    machine: Machine,
    fuel: nat,
)
    requires
        frame.next < frame.body.len(),
        frame.body[frame.next as int] == Instr::Loop(body),
        machine.cell() != 0,
        !(run_on(
            below.push(Frame { next: frame.next + 1, ..frame }).push(Frame { body, next: 0 }),
            machine,
            fuel,
        ) is OutOfFuel),
    ensures
        run_on(below.push(frame), machine, fuel + 1) == run_on(
            below.push(Frame { next: frame.next + 1, ..frame }).push(Frame { body, next: 0 }),
            machine,
            fuel,
        ),
{
    let advanced = Frame { next: frame.next + 1, ..frame };
    let entered = Frame { body, next: 0 };
    let left = rest_of(frame);
    assert(left.drop_first() =~= rest_of(advanced));
    assert(left[0] == Instr::Loop(body));
    assert(rest_of(entered) =~= body);
    lemma_run_on_push(below.push(advanced), entered, machine, fuel);
    lemma_run_on_push(below, frame, machine, fuel + 1);
    assert(run_loop(body, machine, fuel + 1) == match run(body, machine, fuel) {
        Outcome::Finished(after) => run_loop(body, after, fuel),
        other => other,
    });
    assert(run(left, machine, fuel + 1) == match run_loop(body, machine, fuel + 1) {
        Outcome::Finished(out_of_loop) => run(rest_of(advanced), out_of_loop, fuel + 1),
        other => other,
    });
    match run(body, machine, fuel) {
        Outcome::Finished(after) => {
            assert(run_after(below.push(advanced), body, after, fuel) == match run_loop(
                body,
                after,
                fuel,
            ) {
                Outcome::Finished(out_of_loop) => run_on(below.push(advanced), out_of_loop, fuel),
                other => other,
            });
            match run_loop(body, after, fuel) {
                Outcome::Finished(out_of_loop) => {
                    lemma_run_on_monotone(below.push(advanced), out_of_loop, fuel, fuel + 1);
                    lemma_run_on_push(below, advanced, out_of_loop, fuel + 1);
                },
                _ => {},
            }
        },
        _ => {},
    }
}

/// A step at the end of a loop's body.
proof fn lemma_step_at_end(below: Seq<Frame>, frame: Frame, machine: Machine, fuel: nat)
    requires
        frame.next >= frame.body.len(),
        below.len() > 0,
        !(run_on(
            if machine.cell() != 0 {
                below.push(Frame { next: 0, ..frame })
            } else {
                below
            },
            machine,
            fuel,
        ) is OutOfFuel),
    ensures
        run_on(below.push(frame), machine, fuel + 1) == run_on(
            if machine.cell() != 0 {
                below.push(Frame { next: 0, ..frame })
            } else {
                below
            },
            machine,
            fuel,
        ),
{
    assert(rest_of(frame) =~= Seq::<Instr>::empty());
    lemma_run_on_push(below, frame, machine, fuel + 1);
    if machine.cell() != 0 {
        let again = Frame { next: 0, ..frame };
        assert(rest_of(again) =~= frame.body);
        lemma_run_on_push(below, again, machine, fuel);
        match run(frame.body, machine, fuel) {
            Outcome::Finished(after) => {
                lemma_run_after_monotone(below, frame.body, after, fuel, fuel + 1);
                match run_loop(frame.body, after, fuel) {
                    Outcome::Finished(left) => {
                        lemma_run_on_monotone(below, left, fuel, fuel + 1);
                    },
                    _ => {},
                }
            },
            _ => {},
        }
    } else {
        lemma_run_on_monotone(below, machine, fuel, fuel + 1);
    }
}

/// A step takes nothing away from what the run has before it: what is
/// before it after the step, run within `fuel`, is what was before it,
/// run within one more.
proof fn lemma_step_keeps_run(config: Config, fuel: nat)
    requires
        step(config).1 is Running,
        !(run_on(step(config).0.frames, step(config).0.machine, fuel) is OutOfFuel),
    ensures
        run_on(config.frames, config.machine, fuel + 1) == run_on(
            step(config).0.frames,
            step(config).0.machine,
            fuel,
        ),
{
    let frame = config.frames.last();
    let below = config.frames.drop_last();
    let machine = config.machine;
    assert(config.frames =~= below.push(frame));
    if frame.next >= frame.body.len() {
        lemma_step_at_end(below, frame, machine, fuel);
    } else {
        let advanced = Frame { next: frame.next + 1, ..frame };
        let left = rest_of(frame);
        assert(left.drop_first() =~= rest_of(advanced));
        assert(left[0] == frame.body[frame.next as int]);
        match frame.body[frame.next as int] {
            Instr::Loop(body) => {
                if machine.cell() != 0 {
                    lemma_step_enters(below, frame, body, machine, fuel);
                } else {
                    assert(run_loop(body, machine, fuel + 1) == Outcome::Finished(machine));
                    lemma_step_within(below, frame, machine, machine, fuel);
                }
            },
            Instr::Read => {},
            _ => {
                lemma_step_within(below, frame, machine, step(config).0.machine, fuel);
            },
        }
    }
}

/// Where the steps end, the bounded run of what was before them ends the
/// same way, within as much fuel as there were steps.
proof fn lemma_run_on_follows_steps(config: Config, budget: nat)
    requires
        !(advance(config, budget).1 is Running),
    ensures
        run_on(config.frames, config.machine, budget) == match advance(config, budget).1 {
            Status::Unsupported => Outcome::Unsupported(advance(config, budget).0.machine),
            _ => Outcome::Finished(advance(config, budget).0.machine),
        },
    decreases budget,
{
    let (next, status) = step(config);
    if status is Running {
        lemma_run_on_follows_steps(next, (budget - 1) as nat);
        lemma_step_keeps_run(config, (budget - 1) as nat);
    } else if config.frames.len() > 0 {
        let frame = config.frames.last();
        if frame.next >= frame.body.len() {
            assert(rest_of(frame) =~= Seq::<Instr>::empty());
        } else {
            assert(rest_of(frame)[0] == frame.body[frame.next as int]);
        }
    }
}

/// The run arrives where the steps do: where some number of steps from
/// the start ends the run, the program halts, and ends as the steps did,
/// with the machine as they left it.
pub proof fn lemma_run_follows_steps(program: Seq<Instr>, machine: Machine, budget: nat)
    requires
        !(advance(start(program, machine), budget).1 is Running),
    ensures
        halts(program, machine),
        outcome(program, machine) == match advance(start(program, machine), budget).1 {
            Status::Unsupported => Outcome::Unsupported(
                advance(start(program, machine), budget).0.machine,
            ),
            _ => Outcome::Finished(advance(start(program, machine), budget).0.machine),
        },
{
    let config = start(program, machine);
    lemma_run_on_follows_steps(config, budget);
    assert(config.frames.last() == Frame { body: program, next: 0 });
    assert(config.frames.drop_last() =~= Seq::<Frame>::empty());
    assert(rest_of(config.frames.last()) =~= program);
    lemma_outcome(program, machine, budget);
}

} // verus!
