//! The machine that programs run on, as mathematics: a circular tape of
//! bytes, a pointer into it, and the bytes printed so far.
//!
//! A program may loop forever, so its meaning is given with a bound: in
//! `run` a loop may take at most `fuel` rounds, each round leaving one less
//! than the round before for the loops in its body, and the run is
//! `OutOfFuel` where that is not enough. A run that ends within some bound
//! ends the same way within every larger one.

use crate::command::Instr;
use vstd::arithmetic::div_mod::{
    lemma_mod_add_multiples_vanish, lemma_mod_sub_multiples_vanish, lemma_small_mod,
};
use vstd::prelude::*;

verus! {

/// A machine at one moment of a run.
pub struct Machine {
    /// The cells, in order. The tape is circular.
    pub tape: Seq<u8>,
    /// The index of the current cell.
    pub pointer: int,
    /// Every byte printed so far, oldest first.
    pub output: Seq<u8>,
}

impl Machine {
    /// The pointer is on the tape.
    pub open spec fn wf(self) -> bool {
        0 <= self.pointer < self.tape.len()
    }

    /// The value of the current cell.
    pub open spec fn cell(self) -> u8 {
        self.tape[self.pointer]
    }

    /// The pointer moved `count` cells to the right, around the end of the
    /// tape as often as it takes.
    pub open spec fn move_right(self, count: nat) -> Machine {
        Machine { pointer: (self.pointer + count) % (self.tape.len() as int), ..self }
    }

    /// The pointer moved `count` cells to the left, around the start of the
    /// tape as often as it takes.
    pub open spec fn move_left(self, count: nat) -> Machine {
        Machine { pointer: (self.pointer - count) % (self.tape.len() as int), ..self }
    }

    /// The current cell raised by `count`, modulo 256.
    pub open spec fn increment(self, count: nat) -> Machine {
        Machine {
            tape: self.tape.update(self.pointer, ((self.cell() + count) % 256) as u8),
            ..self
        }
    }

    /// The current cell lowered by `count`, modulo 256.
    pub open spec fn decrement(self, count: nat) -> Machine {
        Machine {
            tape: self.tape.update(self.pointer, ((self.cell() - count) % 256) as u8),
            ..self
        }
    }

    /// The current cell's value printed.
    pub open spec fn print(self) -> Machine {
        Machine { output: self.output.push(self.cell()), ..self }
    }
}

/// A machine with `size` cells, all zero, the pointer on the first, and
/// nothing printed.
pub open spec fn fresh(size: nat) -> Machine {
    Machine { tape: Seq::new(size, |i: int| 0u8), pointer: 0, output: Seq::empty() }
}

/// How a run ended.
pub enum Outcome {
    /// The program ran to its end and left the machine so.
    Finished(Machine),
    /// The program reached a `Read`, which no machine supports, with the
    /// machine so.
    Unsupported(Machine),
    /// Some loop wanted more iterations than the bound allowed.
    OutOfFuel,
}

/// The run of `program` from `machine`, each loop bounded by `fuel`.
pub open spec fn run(program: Seq<Instr>, machine: Machine, fuel: nat) -> Outcome
    decreases fuel, program,
{
    if program.len() == 0 {
        Outcome::Finished(machine)
    } else {
        let rest = program.drop_first();
        match program[0] {
            Instr::MoveRight(count) => run(rest, machine.move_right(count), fuel),
            Instr::MoveLeft(count) => run(rest, machine.move_left(count), fuel),
            Instr::Increment(count) => run(rest, machine.increment(count), fuel),
            Instr::Decrement(count) => run(rest, machine.decrement(count), fuel),
            Instr::Print => run(rest, machine.print(), fuel),
            Instr::Read => Outcome::Unsupported(machine),
            Instr::Loop(body) => match run_loop(body, machine, fuel) {
                Outcome::Finished(after) => run(rest, after, fuel),
                other => other,
            },
        }
    }
}

/// The run of a loop over `body` from `machine`: the body again and again
/// while the current cell is not zero, tested before each round.
pub open spec fn run_loop(body: Seq<Instr>, machine: Machine, fuel: nat) -> Outcome
    decreases fuel, body,
{
    if machine.cell() == 0 {
        Outcome::Finished(machine)
    } else if fuel == 0 {
        Outcome::OutOfFuel
    } else {
        match run(body, machine, (fuel - 1) as nat) {
            Outcome::Finished(after) => run_loop(body, after, (fuel - 1) as nat),
            other => other,
        }
    }
}

/// Some bound is enough for the run of `program` from `machine` to end.
pub open spec fn halts(program: Seq<Instr>, machine: Machine) -> bool {
    exists|fuel: nat| !(#[trigger] run(program, machine, fuel) is OutOfFuel)
}

/// How the run of `program` from `machine` ends, where it does.
pub open spec fn outcome(program: Seq<Instr>, machine: Machine) -> Outcome {
    run(program, machine, choose|fuel: nat| !(#[trigger] run(program, machine, fuel) is OutOfFuel))
}

/// A run that ends within one bound ends the same way within a larger one.
pub proof fn lemma_run_monotone(program: Seq<Instr>, machine: Machine, fuel: nat, more: nat)
    requires
        fuel <= more,
        !(run(program, machine, fuel) is OutOfFuel),
    ensures
        run(program, machine, more) == run(program, machine, fuel),
    decreases fuel, program,
{
    if program.len() > 0 {
        let rest = program.drop_first();
        match program[0] {
            Instr::MoveRight(count) => lemma_run_monotone(
                rest,
                machine.move_right(count),
                fuel,
                more,
            ),
            Instr::MoveLeft(count) => lemma_run_monotone(rest, machine.move_left(count), fuel, more),
            Instr::Increment(count) => lemma_run_monotone(
                rest,
                machine.increment(count),
                fuel,
                more,
            ),
            Instr::Decrement(count) => lemma_run_monotone(
                rest,
                machine.decrement(count),
                fuel,
                more,
            ),
            Instr::Print => lemma_run_monotone(rest, machine.print(), fuel, more),
            Instr::Read => {},
            Instr::Loop(body) => {
                lemma_run_loop_monotone(body, machine, fuel, more);
                match run_loop(body, machine, fuel) {
                    Outcome::Finished(after) => lemma_run_monotone(rest, after, fuel, more),
                    _ => {},
                }
            },
        }
    }
}

/// A loop that ends within one bound ends the same way within a larger one.
pub proof fn lemma_run_loop_monotone(body: Seq<Instr>, machine: Machine, fuel: nat, more: nat)
    requires
        fuel <= more,
        !(run_loop(body, machine, fuel) is OutOfFuel),
    ensures
        run_loop(body, machine, more) == run_loop(body, machine, fuel),
    decreases fuel, body,
{
    if machine.cell() != 0 {
        lemma_run_monotone(body, machine, (fuel - 1) as nat, (more - 1) as nat);
        match run(body, machine, (fuel - 1) as nat) {
            Outcome::Finished(after) => lemma_run_loop_monotone(
                body,
                after,
                (fuel - 1) as nat,
                (more - 1) as nat,
            ),
            _ => {},
        }
    }
}

/// Where the run ends within `fuel`, the program halts, and how it ends is
/// how that run ended.
pub proof fn lemma_outcome(program: Seq<Instr>, machine: Machine, fuel: nat)
    requires
        !(run(program, machine, fuel) is OutOfFuel),
    ensures
        halts(program, machine),
        outcome(program, machine) == run(program, machine, fuel),
        !(outcome(program, machine) is OutOfFuel),
{
    let chosen = choose|f: nat| !(#[trigger] run(program, machine, f) is OutOfFuel);
    if chosen <= fuel {
        lemma_run_monotone(program, machine, chosen, fuel);
    } else {
        lemma_run_monotone(program, machine, fuel, chosen);
    }
}

/// The run of one sequence after another is the run of the second from
/// where the first ended, if it ended.
pub proof fn lemma_run_concat(first: Seq<Instr>, second: Seq<Instr>, machine: Machine, fuel: nat)
    ensures
        run(first + second, machine, fuel) == match run(first, machine, fuel) {
            Outcome::Finished(after) => run(second, after, fuel),
            other => other,
        },
    decreases first.len(),
{
    if first.len() == 0 {
        assert(first + second =~= second);
    } else {
        let whole = first + second;
        let rest = first.drop_first();
        assert(whole.drop_first() =~= rest + second);
        assert(whole[0] == first[0]);
        match first[0] {
            Instr::MoveRight(count) => lemma_run_concat(
                rest,
                second,
                machine.move_right(count),
                fuel,
            ),
            Instr::MoveLeft(count) => lemma_run_concat(rest, second, machine.move_left(count), fuel),
            Instr::Increment(count) => lemma_run_concat(
                rest,
                second,
                machine.increment(count),
                fuel,
            ),
            Instr::Decrement(count) => lemma_run_concat(
                rest,
                second,
                machine.decrement(count),
                fuel,
            ),
            Instr::Print => lemma_run_concat(rest, second, machine.print(), fuel),
            Instr::Read => {},
            Instr::Loop(body) => {
                match run_loop(body, machine, fuel) {
                    Outcome::Finished(after) => lemma_run_concat(rest, second, after, fuel),
                    _ => {},
                }
            },
        }
    }
}

/// A run keeps the tape's length and the pointer on the tape.
pub proof fn lemma_run_wf(program: Seq<Instr>, machine: Machine, fuel: nat)
    requires
        machine.wf(),
    ensures
        match run(program, machine, fuel) {
            Outcome::Finished(after) => after.wf() && after.tape.len() == machine.tape.len(),
            Outcome::Unsupported(after) => after.wf() && after.tape.len() == machine.tape.len(),
            Outcome::OutOfFuel => true,
        },
    decreases fuel, program,
{
    if program.len() > 0 {
        let rest = program.drop_first();
        match program[0] {
            Instr::MoveRight(count) => lemma_run_wf(rest, machine.move_right(count), fuel),
            Instr::MoveLeft(count) => lemma_run_wf(rest, machine.move_left(count), fuel),
            Instr::Increment(count) => lemma_run_wf(rest, machine.increment(count), fuel),
            Instr::Decrement(count) => lemma_run_wf(rest, machine.decrement(count), fuel),
            Instr::Print => lemma_run_wf(rest, machine.print(), fuel),
            Instr::Read => {},
            Instr::Loop(body) => {
                lemma_run_loop_wf(body, machine, fuel);
                match run_loop(body, machine, fuel) {
                    Outcome::Finished(after) => lemma_run_wf(rest, after, fuel),
                    _ => {},
                }
            },
        }
    }
}

/// A loop keeps the tape's length and the pointer on the tape.
pub proof fn lemma_run_loop_wf(body: Seq<Instr>, machine: Machine, fuel: nat)
    requires
        machine.wf(),
    ensures
        match run_loop(body, machine, fuel) {
            Outcome::Finished(after) => after.wf() && after.tape.len() == machine.tape.len(),
            Outcome::Unsupported(after) => after.wf() && after.tape.len() == machine.tape.len(),
            Outcome::OutOfFuel => true,
        },
    decreases fuel, body,
{
    if machine.cell() != 0 && fuel > 0 {
        lemma_run_wf(body, machine, (fuel - 1) as nat);
        match run(body, machine, (fuel - 1) as nat) {
            Outcome::Finished(after) => lemma_run_loop_wf(body, after, (fuel - 1) as nat),
            _ => {},
        }
    }
}

/// Whether `program` holds a `Read`, at any depth.
pub open spec fn contains_read(program: Seq<Instr>) -> bool
    decreases program,
{
    exists|i: int|
        0 <= i < program.len() && match #[trigger] program[i] {
            Instr::Read => true,
            Instr::Loop(body) => contains_read(body),
            _ => false,
        }
}

/// A `Read` that the run arrives at ends it there: where the part of a
/// program before a `Read` runs to its end, the program stops at the
/// `Read`, with the machine, and so the output, as that part left it.
/// Where that part stops at an earlier `Read` or runs out of fuel, so does
/// the program.
pub proof fn lemma_read_stops_run(
    before: Seq<Instr>,
    after: Seq<Instr>,
    machine: Machine,
    fuel: nat,
)
    ensures
        run(before + seq![Instr::Read] + after, machine, fuel) == match run(before, machine, fuel) {
            Outcome::Finished(reached) => Outcome::Unsupported(reached),
            other => other,
        },
{
    let tail = seq![Instr::Read] + after;
    assert(before + seq![Instr::Read] + after =~= before + tail);
    lemma_run_concat(before, tail, machine, fuel);
    assert(tail[0] == Instr::Read);
}

/// Only a `Read` is unsupported: a program that holds none never stops
/// short of its end.
pub proof fn lemma_unsupported_needs_read(program: Seq<Instr>, machine: Machine, fuel: nat)
    requires
        !contains_read(program),
    ensures
        !(run(program, machine, fuel) is Unsupported),
    decreases fuel, program,
{
    if program.len() > 0 {
        let rest = program.drop_first();
        assert forall|i: int| 0 <= i < rest.len() implies match #[trigger] rest[i] {
            Instr::Read => false,
            Instr::Loop(body) => !contains_read(body),
            _ => true,
        } by {
            assert(rest[i] == program[i + 1]);
        }
        assert(!contains_read(rest));
        match program[0] {
            Instr::MoveRight(count) => lemma_unsupported_needs_read(
                rest,
                machine.move_right(count),
                fuel,
            ),
            Instr::MoveLeft(count) => lemma_unsupported_needs_read(
                rest,
                machine.move_left(count),
                fuel,
            ),
            Instr::Increment(count) => lemma_unsupported_needs_read(
                rest,
                machine.increment(count),
                fuel,
            ),
            Instr::Decrement(count) => lemma_unsupported_needs_read(
                rest,
                machine.decrement(count),
                fuel,
            ),
            Instr::Print => lemma_unsupported_needs_read(rest, machine.print(), fuel),
            Instr::Read => {},
            Instr::Loop(body) => {
                lemma_loop_unsupported_needs_read(body, machine, fuel);
                match run_loop(body, machine, fuel) {
                    Outcome::Finished(reached) => lemma_unsupported_needs_read(
                        rest,
                        reached,
                        fuel,
                    ),
                    _ => {},
                }
            },
        }
    }
}

/// A loop whose body holds no `Read` never stops short of its end.
pub proof fn lemma_loop_unsupported_needs_read(body: Seq<Instr>, machine: Machine, fuel: nat)
    requires
        !contains_read(body),
    ensures
        !(run_loop(body, machine, fuel) is Unsupported),
    decreases fuel, body,
{
    if machine.cell() != 0 && fuel > 0 {
        lemma_unsupported_needs_read(body, machine, (fuel - 1) as nat);
        match run(body, machine, (fuel - 1) as nat) {
            Outcome::Finished(reached) => lemma_loop_unsupported_needs_read(
                body,
                reached,
                (fuel - 1) as nat,
            ),
            _ => {},
        }
    }
}

/// A run only ever adds to the output: what was printed stays printed.
pub proof fn lemma_run_extends_output(program: Seq<Instr>, machine: Machine, fuel: nat)
    ensures
        match run(program, machine, fuel) {
            Outcome::Finished(reached) => machine.output.is_prefix_of(reached.output),
            Outcome::Unsupported(reached) => machine.output.is_prefix_of(reached.output),
            Outcome::OutOfFuel => true,
        },
    decreases fuel, program,
{
    if program.len() > 0 {
        let rest = program.drop_first();
        match program[0] {
            Instr::MoveRight(count) => lemma_run_extends_output(
                rest,
                machine.move_right(count),
                fuel,
            ),
            Instr::MoveLeft(count) => lemma_run_extends_output(
                rest,
                machine.move_left(count),
                fuel,
            ),
            Instr::Increment(count) => lemma_run_extends_output(
                rest,
                machine.increment(count),
                fuel,
            ),
            Instr::Decrement(count) => lemma_run_extends_output(
                rest,
                machine.decrement(count),
                fuel,
            ),
            Instr::Print => lemma_run_extends_output(rest, machine.print(), fuel),
            Instr::Read => {},
            Instr::Loop(body) => {
                lemma_loop_extends_output(body, machine, fuel);
                match run_loop(body, machine, fuel) {
                    Outcome::Finished(reached) => lemma_run_extends_output(rest, reached, fuel),
                    _ => {},
                }
            },
        }
    }
}

/// A loop only ever adds to the output.
pub proof fn lemma_loop_extends_output(body: Seq<Instr>, machine: Machine, fuel: nat)
    ensures
        match run_loop(body, machine, fuel) {
            Outcome::Finished(reached) => machine.output.is_prefix_of(reached.output),
            Outcome::Unsupported(reached) => machine.output.is_prefix_of(reached.output),
            Outcome::OutOfFuel => true,
        },
    decreases fuel, body,
{
    if machine.cell() != 0 && fuel > 0 {
        lemma_run_extends_output(body, machine, (fuel - 1) as nat);
        match run(body, machine, (fuel - 1) as nat) {
            Outcome::Finished(reached) => lemma_loop_extends_output(
                body,
                reached,
                (fuel - 1) as nat,
            ),
            _ => {},
        }
    }
}

/// Raising a cell by 256 leaves it as it was.
pub proof fn lemma_increment_full_cycle(machine: Machine)
    requires
        machine.wf(),
    ensures
        machine.increment(256) == machine,
{
    assert(machine.tape.update(machine.pointer, machine.cell()) =~= machine.tape);
}

/// Lowering a cell by 256 leaves it as it was.
pub proof fn lemma_decrement_full_cycle(machine: Machine)
    requires
        machine.wf(),
    ensures
        machine.decrement(256) == machine,
{
    assert(machine.tape.update(machine.pointer, machine.cell()) =~= machine.tape);
}

/// Moving right by the length of the tape comes back to the same cell.
pub proof fn lemma_move_right_full_circle(machine: Machine)
    requires
        machine.wf(),
    ensures
        machine.move_right(machine.tape.len()) == machine,
{
    let n = machine.tape.len() as int;
    lemma_mod_add_multiples_vanish(machine.pointer, n);
    lemma_small_mod(machine.pointer as nat, n as nat);
    assert(machine.pointer + n == n + machine.pointer);
}

/// Moving left by the length of the tape comes back to the same cell.
pub proof fn lemma_move_left_full_circle(machine: Machine)
    requires
        machine.wf(),
    ensures
        machine.move_left(machine.tape.len()) == machine,
{
    let n = machine.tape.len() as int;
    lemma_mod_sub_multiples_vanish(machine.pointer, n);
    lemma_small_mod(machine.pointer as nat, n as nat);
    assert(machine.pointer - n == -n + machine.pointer);
}

} // verus!
