//! The execution engine: a tape of `MAX_POSITIONS` cells and a pointer,
//! taken through a program tree depth first, left to right.
//!
//! The engine keeps its place in the tree on a stack of its own, so the
//! depth of a program's loops costs memory, not call stack, and a run can
//! be taken a bounded number of steps at a time.

use crate::command::{lemma_program_view, program_view, Command};
use crate::machine::{
    fresh, halts, lemma_outcome, lemma_run_extends_output, outcome, run, Machine, Outcome,
};
use crate::stepping;
use crate::stepping::{
    at_start, ended, lemma_advance_past_end, lemma_advance_short_of_end,
    lemma_steps_follow_run, start, Config, Frame, Status,
};
use vstd::prelude::*;

verus! {

/// The number of cells on the tape.
pub const MAX_POSITIONS: usize = 30000;

/// Why a run was abandoned.
#[derive(Debug, Clone, Copy, PartialEq, Eq)]
pub enum EngineError {
    /// The program reached a `Read`, which is not supported.
    UnsupportedInstruction,
}

/// One level of a run: a sequence of instructions and the index of the
/// next of them.
#[derive(Clone, Copy)]
struct Level<'a> {
    commands: &'a [Command],
    next: usize,
}

impl<'a> View for Level<'a> {
    type V = Frame;

    closed spec fn view(&self) -> Frame {
        Frame { body: program_view(self.commands@), next: self.next as nat }
    }
}

/// Where a run stands in its program: the program and the index of its
/// next instruction, and the same for every loop that the run is inside.
pub struct Cursor<'a> {
    levels: Vec<Level<'a>>,
}

impl<'a> View for Cursor<'a> {
    type V = Seq<Frame>;

    closed spec fn view(&self) -> Seq<Frame> {
        Seq::new(self.levels@.len(), |i: int| self.levels@[i]@)
    }
}

impl<'a> Cursor<'a> {
    /// A cursor at the start of `commands`.
    pub fn new(commands: &'a [Command]) -> (cursor: Cursor<'a>)
        ensures
            cursor@ == at_start(program_view(commands@)),
    {
        let mut levels: Vec<Level<'a>> = Vec::new();
        levels.push(Level { commands, next: 0 });
        let cursor = Cursor { levels };
        assert(cursor@ =~= at_start(program_view(commands@)));
        cursor
    }

    proof fn lemma_view(&self)
        ensures
            self@.len() == self.levels@.len(),
            forall|i: int| 0 <= i < self.levels@.len() ==> self@[i] == self.levels@[i]@,
    {
    }
}

/// A tape and the pointer into it.
pub struct Engine {
    data: [u8; MAX_POSITIONS],
    pos: usize,
}

/// Whether a run that ended as `outcome` says `result` and leaves `machine`.
pub open spec fn ended_as(outcome: Outcome, result: Result<(), EngineError>, machine: Machine) -> bool {
    match outcome {
        Outcome::Finished(after) => result is Ok && machine == after,
        Outcome::Unsupported(after) => result == Err::<(), EngineError>(
            EngineError::UnsupportedInstruction,
        ) && machine == after,
        Outcome::OutOfFuel => false,
    }
}

impl Engine {
    #[verifier::type_invariant]
    spec fn pointer_on_tape(&self) -> bool {
        self.pos < MAX_POSITIONS
    }

    /// The cells of the tape, in order.
    pub closed spec fn tape(&self) -> Seq<u8> {
        self.data@
    }

    /// The index of the current cell.
    pub closed spec fn pointer(&self) -> int {
        self.pos as int
    }

    /// The machine that this engine is, with `output` printed so far.
    pub open spec fn machine(&self, output: Seq<u8>) -> Machine {
        Machine { tape: self.tape(), pointer: self.pointer(), output }
    }

    /// An engine with every cell zero and the pointer on the first.
    pub fn new() -> (engine: Engine)
        ensures
            engine.machine(Seq::empty()) == fresh(MAX_POSITIONS as nat),
    {
        let engine = Engine { data: [0u8; MAX_POSITIONS], pos: 0 };
        assert(engine.data@ =~= fresh(MAX_POSITIONS as nat).tape);
        engine
    }

    /// The value of the current cell.
    pub fn val(&self) -> (value: u8)
        ensures
            value == self.machine(Seq::empty()).cell(),
    {
        proof {
            use_type_invariant(self);
        }
        self.data[self.pos]
    }

    /// The cells of the tape.
    pub fn data(&self) -> (cells: &[u8; MAX_POSITIONS])
        ensures
            cells@ == self.tape(),
    {
        &self.data
    }

    /// The index of the current cell.
    pub fn pos(&self) -> (index: usize)
        ensures
            index == self.pointer(),
            index < MAX_POSITIONS,
    {
        proof {
            use_type_invariant(self);
        }
        self.pos
    }

    /// Moves the pointer `count` cells to the right, around the end.
    fn move_right(&mut self, count: usize)
        ensures
            final(self).machine(Seq::empty()) == old(self).machine(Seq::empty()).move_right(
                count as nat,
            ),
    {
        proof {
            use_type_invariant(&*self);
        }
        self.pos = (self.pos + count % MAX_POSITIONS) % MAX_POSITIONS;
    }

    /// Moves the pointer `count` cells to the left, around the start.
    fn move_left(&mut self, count: usize)
        ensures
            final(self).machine(Seq::empty()) == old(self).machine(Seq::empty()).move_left(
                count as nat,
            ),
    {
        proof {
            use_type_invariant(&*self);
        }
        self.pos = (self.pos + (MAX_POSITIONS - count % MAX_POSITIONS)) % MAX_POSITIONS;
    }

    /// Raises the current cell by `count`, modulo 256.
    fn increment(&mut self, count: usize)
        ensures
            final(self).machine(Seq::empty()) == old(self).machine(Seq::empty()).increment(
                count as nat,
            ),
    {
        proof {
            use_type_invariant(&*self);
        }
        let amount = (count % 256) as u8;
        self.data[self.pos] = self.data[self.pos].wrapping_add(amount);
    }

    /// Lowers the current cell by `count`, modulo 256.
    fn decrement(&mut self, count: usize)
        ensures
            final(self).machine(Seq::empty()) == old(self).machine(Seq::empty()).decrement(
                count as nat,
            ),
    {
        proof {
            use_type_invariant(&*self);
        }
        let amount = (count % 256) as u8;
        self.data[self.pos] = self.data[self.pos].wrapping_sub(amount);
    }

    /// The run in progress that this engine, `cursor` and `output` are.
    pub open spec fn config(&self, cursor: &Cursor, output: Seq<u8>) -> Config {
        Config { machine: self.machine(output), frames: cursor@ }
    }

    /// Takes one step of the run that `cursor` stands in, appending to
    /// `out` the byte that it prints, if any.
    fn step<'a>(&mut self, cursor: &mut Cursor<'a>, out: &mut Vec<u8>) -> (status: Status)
        ensures
            (final(self).config(final(cursor), final(out)@), status) == stepping::step(
                old(self).config(old(cursor), old(out)@),
            ),
    {
        let depth = cursor.levels.len();
        if depth == 0 {
            return Status::Finished;
        }
        let ghost before = cursor@;
        let level = cursor.levels[depth - 1];
        proof {
            cursor.lemma_view();
            assert(before.last() == level@);
            lemma_program_view(level.commands@);
        }
        if level.next >= level.commands.len() {
            if depth == 1 {
                return Status::Finished;
            }
            cursor.levels.pop();
            if self.val() != 0 {
                cursor.levels.push(Level { commands: level.commands, next: 0 });
            }
            proof {
                cursor.lemma_view();
                if self.machine(out@).cell() != 0 {
                    assert(cursor@ =~= before.drop_last().push(Frame { next: 0, ..before.last() }));
                } else {
                    assert(cursor@ =~= before.drop_last());
                }
            }
            return Status::Running;
        }
        let advanced = Level { commands: level.commands, next: level.next + 1 };
        match &level.commands[level.next] {
            Command::Read => {
                return Status::Unsupported;
            },
            Command::MoveRight(count) => {
                self.move_right(*count);
                cursor.levels.set(depth - 1, advanced);
            },
            Command::MoveLeft(count) => {
                self.move_left(*count);
                cursor.levels.set(depth - 1, advanced);
            },
            Command::Increment(count) => {
                self.increment(*count);
                cursor.levels.set(depth - 1, advanced);
            },
            Command::Decrement(count) => {
                self.decrement(*count);
                cursor.levels.set(depth - 1, advanced);
            },
            Command::Print => {
                let value = self.val();
                out.push(value);
                cursor.levels.set(depth - 1, advanced);
            },
            Command::Loop(body) => {
                cursor.levels.set(depth - 1, advanced);
                if self.val() != 0 {
                    cursor.levels.push(Level { commands: body.as_slice(), next: 0 });
                    proof {
                        cursor.lemma_view();
                        assert(cursor@ =~= before.drop_last().push(advanced@).push(
                            Frame { body: program_view(body@), next: 0 },
                        ));
                    }
                    return Status::Running;
                }
            },
        }
        proof {
            cursor.lemma_view();
            assert(cursor@ =~= before.drop_last().push(advanced@));
        }
        Status::Running
    }

    /// Takes at most `budget` steps of the run that `cursor` stands in,
    /// fewer where it ends before, appending to `out` each byte printed on
    /// the way. Says whether the run goes on, has ended, or stands at a
    /// `Read`.
    pub fn advance<'a>(
        &mut self,
        cursor: &mut Cursor<'a>,
        out: &mut Vec<u8>,
        budget: usize,
    ) -> (status: Status)
        ensures
            (final(self).config(final(cursor), final(out)@), status) == stepping::advance(
                old(self).config(old(cursor), old(out)@),
                budget as nat,
            ),
    {
        let ghost target = stepping::advance(self.config(cursor, out@), budget as nat);
        let mut left = budget;
        while left > 0
            invariant
                target == stepping::advance(
                    old(self).config(old(cursor), old(out)@),
                    budget as nat,
                ),
                stepping::advance(self.config(cursor, out@), left as nat) == target,
            decreases left,
        {
            let status = self.step(cursor, out);
            match status {
                Status::Running => {
                    left -= 1;
                },
                _ => {
                    return status;
                },
            }
        }
        Status::Running
    }

    /// Runs `commands` on this engine, appending to `out` each byte that
    /// they print.
    ///
    /// The run must end: a program that loops forever keeps this function
    /// from returning. Where it ends, the engine and `out` are left as the
    /// run left them, and the result says whether it ended at the end of
    /// the program or at a `Read`.
    pub fn execute(&mut self, commands: &[Command], out: &mut Vec<u8>) -> (result: Result<
        (),
        EngineError,
    >)
        requires
            halts(program_view(commands@), old(self).machine(old(out)@)),
        ensures
            ended_as(
                outcome(program_view(commands@), old(self).machine(old(out)@)),
                result,
                final(self).machine(final(out)@),
            ),
            old(out)@.is_prefix_of(final(out)@),
    {
        let ghost program = program_view(commands@);
        let ghost begin = self.machine(out@);
        let ghost fuel = choose|fuel: nat| !(#[trigger] run(program, begin, fuel) is OutOfFuel);
        let ghost mut left: nat = 0;
        let ghost mut end: Config = start(program, begin);
        proof {
            lemma_outcome(program, begin, fuel);
            lemma_run_extends_output(program, begin, fuel);
            let reached = lemma_steps_follow_run(program, begin, fuel);
            left = reached.0;
            end = reached.1;
        }
        let mut cursor = Cursor::new(commands);
        loop
            invariant
                stepping::advance(self.config(&cursor, out@), left) == (end, Status::Running),
                ended(end),
                match outcome(program_view(commands@), old(self).machine(old(out)@)) {
                    Outcome::Finished(after) => end.machine == after && stepping::step(end).1
                        is Finished,
                    Outcome::Unsupported(after) => end.machine == after && stepping::step(end).1
                        is Unsupported,
                    Outcome::OutOfFuel => false,
                },
                old(out)@.is_prefix_of(end.machine.output),
            decreases left,
        {
            let ghost before = self.config(&cursor, out@);
            let status = self.advance(&mut cursor, out, usize::MAX);
            proof {
                if left < usize::MAX {
                    lemma_advance_past_end(before, left, end, usize::MAX as nat);
                } else {
                    lemma_advance_short_of_end(before, left, usize::MAX as nat);
                    left = (left - usize::MAX) as nat;
                }
            }
            match status {
                Status::Running => {},
                Status::Finished => {
                    return Ok(());
                },
                Status::Unsupported => {
                    return Err(EngineError::UnsupportedInstruction);
                },
            }
        }
    }
}

} // verus!
