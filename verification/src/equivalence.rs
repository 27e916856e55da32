//! The optimizer changes how a program is written, never what it does.

use crate::command::Instr;
use crate::machine::{
    halts, lemma_outcome, lemma_run_concat, lemma_run_wf, outcome, run, run_loop, Machine,
    Outcome,
};
use crate::optimizer::{extend, merge, mergeable, optimize};
use crate::stepping::{
    advance, lemma_advance_past_end, lemma_run_follows_steps, lemma_steps_follow_run, start,
};
use vstd::arithmetic::div_mod::{
    lemma_add_mod_noop_right, lemma_sub_mod_noop, lemma_sub_mod_noop_right,
};
use vstd::prelude::*;

verus! {

/// One merged instruction does what the two did, one after the other.
proof fn lemma_merge_runs_as_pair(left: Instr, right: Instr, machine: Machine)
    requires
        machine.wf(),
        mergeable(left, right),
    ensures
        match (left, right) {
            (Instr::MoveRight(i), Instr::MoveRight(j)) => machine.move_right(i + j)
                == machine.move_right(i).move_right(j),
            (Instr::MoveLeft(i), Instr::MoveLeft(j)) => machine.move_left(i + j)
                == machine.move_left(i).move_left(j),
            (Instr::Increment(i), Instr::Increment(j)) => machine.increment(i + j)
                == machine.increment(i).increment(j),
            (Instr::Decrement(i), Instr::Decrement(j)) => machine.decrement(i + j)
                == machine.decrement(i).decrement(j),
            _ => true,
        },
{
    let n = machine.tape.len() as int;
    let p = machine.pointer;
    let v = machine.cell() as int;
    match (left, right) {
        (Instr::MoveRight(i), Instr::MoveRight(j)) => {
            lemma_add_mod_noop_right(j as int, p + i, n);
        },
        (Instr::MoveLeft(i), Instr::MoveLeft(j)) => {
            lemma_sub_mod_noop(p - i, j as int, n);
            lemma_sub_mod_noop_right((p - i) % n, j as int, n);
        },
        (Instr::Increment(i), Instr::Increment(j)) => {
            lemma_add_mod_noop_right(j as int, v + i, 256);
            assert(machine.increment(i + j).tape =~= machine.increment(i).increment(j).tape);
        },
        (Instr::Decrement(i), Instr::Decrement(j)) => {
            lemma_sub_mod_noop(v - i, j as int, 256);
            lemma_sub_mod_noop_right((v - i) % 256, j as int, 256);
            assert(machine.decrement(i + j).tape =~= machine.decrement(i).decrement(j).tape);
        },
        _ => {},
    }
}

/// Extending an optimized sequence by an instruction runs as the sequence
/// followed by the instruction.
proof fn lemma_extend_runs_as_push(optimized: Seq<Instr>, instr: Instr, machine: Machine, fuel: nat)
    requires
        machine.wf(),
    ensures
        run(extend(optimized, instr), machine, fuel) == run(optimized.push(instr), machine, fuel),
{
    if optimized.len() > 0 && mergeable(optimized.last(), instr) {
        let front = optimized.drop_last();
        let last = optimized.last();
        let merged = merge(last, instr);
        assert(front.push(merged) =~= front + seq![merged]);
        assert(optimized.push(instr) =~= front + seq![last, instr]);
        lemma_run_concat(front, seq![merged], machine, fuel);
        lemma_run_concat(front, seq![last, instr], machine, fuel);
        lemma_run_wf(front, machine, fuel);
        match run(front, machine, fuel) {
            Outcome::Finished(after) => {
                lemma_merge_runs_as_pair(last, instr, after);
                assert(seq![merged].drop_first() =~= Seq::<Instr>::empty());
                assert(seq![last, instr].drop_first() =~= seq![instr]);
                assert(seq![instr].drop_first() =~= Seq::<Instr>::empty());
                reveal_with_fuel(run, 3);
            },
            _ => {},
        }
    }
}

/// The optimized program runs as the program does, within every bound.
pub proof fn lemma_optimize_preserves_run(program: Seq<Instr>, machine: Machine, fuel: nat)
    requires
        machine.wf(),
    ensures
        run(optimize(program), machine, fuel) == run(program, machine, fuel),
    decreases fuel, program,
{
    if program.len() > 0 {
        let front = program.drop_last();
        let last = program.last();
        let last_optimized = match last {
            Instr::Loop(body) => Instr::Loop(optimize(body)),
            other => other,
        };
        lemma_extend_runs_as_push(optimize(front), last_optimized, machine, fuel);
        assert(optimize(front).push(last_optimized) =~= optimize(front) + seq![last_optimized]);
        assert(program =~= front + seq![last]);
        lemma_run_concat(optimize(front), seq![last_optimized], machine, fuel);
        lemma_run_concat(front, seq![last], machine, fuel);
        lemma_optimize_preserves_run(front, machine, fuel);
        lemma_run_wf(front, machine, fuel);
        match run(front, machine, fuel) {
            Outcome::Finished(after) => {
                assert(seq![last_optimized].drop_first() =~= Seq::<Instr>::empty());
                assert(seq![last].drop_first() =~= Seq::<Instr>::empty());
                match last {
                    Instr::Loop(body) => {
                        lemma_optimize_preserves_loop(body, after, fuel);
                    },
                    _ => {},
                }
                reveal_with_fuel(run, 2);
            },
            _ => {},
        }
    }
}

/// A loop over the optimized body runs as the loop over the body does.
pub proof fn lemma_optimize_preserves_loop(body: Seq<Instr>, machine: Machine, fuel: nat)
    requires
        machine.wf(),
    ensures
        run_loop(optimize(body), machine, fuel) == run_loop(body, machine, fuel),
    decreases fuel, body,
{
    if machine.cell() != 0 && fuel > 0 {
        lemma_optimize_preserves_run(body, machine, (fuel - 1) as nat);
        lemma_run_wf(body, machine, (fuel - 1) as nat);
        match run(body, machine, (fuel - 1) as nat) {
            Outcome::Finished(after) => {
                lemma_optimize_preserves_loop(body, after, (fuel - 1) as nat);
            },
            _ => {},
        }
    }
}

/// The optimized program halts where the program does, and ends as it
/// does: with the same output and the same tape, or at the same `Read`.
pub proof fn lemma_optimize_preserves_outcome(program: Seq<Instr>, machine: Machine)
    requires
        machine.wf(),
    ensures
        halts(optimize(program), machine) == halts(program, machine),
        halts(program, machine) ==> outcome(optimize(program), machine) == outcome(
            program,
            machine,
        ),
{
    if halts(program, machine) {
        let fuel = choose|fuel: nat| !(#[trigger] run(program, machine, fuel) is OutOfFuel);
        lemma_optimize_preserves_run(program, machine, fuel);
        lemma_outcome(program, machine, fuel);
        lemma_outcome(optimize(program), machine, fuel);
    }
    if halts(optimize(program), machine) {
        let fuel = choose|fuel: nat|
            !(#[trigger] run(optimize(program), machine, fuel) is OutOfFuel);
        lemma_optimize_preserves_run(program, machine, fuel);
        lemma_outcome(program, machine, fuel);
    }
}

/// Step by step, the optimized program ends where the program does:
/// where some number of steps ends the run of the program, some number of
/// steps ends the run of the optimized program the same way, with the same
/// output and the same tape. That number is returned.
pub proof fn lemma_optimize_preserves_steps(program: Seq<Instr>, machine: Machine, budget: nat) -> (enough:
    nat)
    requires
        machine.wf(),
        !(advance(start(program, machine), budget).1 is Running),
    ensures
        advance(start(optimize(program), machine), enough).1 == advance(
            start(program, machine),
            budget,
        ).1,
        advance(start(optimize(program), machine), enough).0.machine == advance(
            start(program, machine),
            budget,
        ).0.machine,
{
    lemma_run_follows_steps(program, machine, budget);
    let fuel = choose|fuel: nat| !(#[trigger] run(program, machine, fuel) is OutOfFuel);
    lemma_outcome(program, machine, fuel);
    lemma_optimize_preserves_run(program, machine, fuel);
    let (count, end) = lemma_steps_follow_run(optimize(program), machine, fuel);
    lemma_advance_past_end(start(optimize(program), machine), count, end, count + 1);
    count + 1
}

} // verus!
