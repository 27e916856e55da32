//! Counting the instructions of a program, for diagnostics.

use crate::command::{lemma_program_view, program_view, Command, Instr};
use crate::optimizer::{merge, mergeable, optimize};
use crate::parser::{close, parse, scan, simple_instr, ParseState};
use vstd::prelude::*;

verus! {

/// What one instruction adds to the count: a loop adds what its body
/// holds and nothing for itself, every other instruction adds one.
pub open spec fn weight(instr: Instr) -> nat
    decreases instr,
{
    match instr {
        Instr::Loop(body) => count(body),
        _ => 1,
    }
}

/// The number of instructions in `program` that are not loops, at every
/// depth.
pub open spec fn count(program: Seq<Instr>) -> nat
    decreases program,
{
    if program.len() == 0 {
        0
    } else {
        count(program.drop_last()) + weight(program.last())
    }
}

/// A prefix of a program holds no more instructions than the program.
proof fn lemma_count_prefix(program: Seq<Instr>, k: int)
    requires
        0 <= k <= program.len(),
    ensures
        count(program.subrange(0, k)) <= count(program),
        k < program.len() ==> count(program.subrange(0, k + 1)) == count(program.subrange(0, k))
            + weight(program[k]),
    decreases program.len() - k,
{
    if k == program.len() {
        assert(program.subrange(0, k) =~= program);
    } else {
        assert(program.subrange(0, k + 1).drop_last() =~= program.subrange(0, k));
        lemma_count_prefix(program, k + 1);
    }
}

/// One more instruction adds its weight.
proof fn lemma_count_push(program: Seq<Instr>, instr: Instr)
    ensures
        count(program.push(instr)) == count(program) + weight(instr),
{
    assert(program.push(instr).drop_last() =~= program);
}

/// The optimized program holds no more instructions than the program.
pub proof fn lemma_optimize_count(program: Seq<Instr>)
    ensures
        count(optimize(program)) <= count(program),
    decreases program,
{
    if program.len() > 0 {
        let front = program.drop_last();
        lemma_optimize_count(front);
        let last = match program.last() {
            Instr::Loop(body) => {
                lemma_optimize_count(body);
                Instr::Loop(optimize(body))
            },
            other => other,
        };
        let before = optimize(front);
        assert(weight(last) <= weight(program.last()));
        if before.len() > 0 && mergeable(before.last(), last) {
            lemma_count_push(before.drop_last(), merge(before.last(), last));
            assert(weight(before.last()) == 1);
            assert(weight(merge(before.last(), last)) == 1);
        } else {
            lemma_count_push(before, last);
        }
    }
}

/// What the parser holds in all: the instructions of the sequence being
/// read and of every sequence that waits for it.
spec fn held(enclosing: Seq<Seq<Instr>>, current: Seq<Instr>) -> nat
    decreases enclosing.len(),
{
    if enclosing.len() == 0 {
        count(current)
    } else {
        held(enclosing.drop_last(), enclosing.last()) + count(current)
    }
}

proof fn lemma_held_push(enclosing: Seq<Seq<Instr>>, current: Seq<Instr>, instr: Instr)
    ensures
        held(enclosing, current.push(instr)) == held(enclosing, current) + weight(instr),
{
    lemma_count_push(current, instr);
}

proof fn lemma_scan_count(source: Seq<char>)
    ensures
        held(scan(source).enclosing, scan(source).current) <= source.len(),
    decreases source.len(),
{
    if source.len() > 0 {
        lemma_scan_count(source.drop_last());
        let state = scan(source.drop_last());
        let c = source.last();
        if state.stopped {
        } else if c == '[' {
            assert(state.enclosing.push(state.current).drop_last() =~= state.enclosing);
        } else if c == ']' {
            if state.enclosing.len() > 0 {
                lemma_held_push(
                    state.enclosing.drop_last(),
                    state.enclosing.last(),
                    Instr::Loop(state.current),
                );
            }
        } else {
            match simple_instr(c) {
                Some(instr) => {
                    lemma_held_push(state.enclosing, state.current, instr);
                },
                None => {},
            }
        }
    }
}

proof fn lemma_close_count(state: ParseState)
    ensures
        count(close(state)) == held(state.enclosing, state.current),
    decreases state.enclosing.len(),
{
    if state.enclosing.len() > 0 {
        lemma_held_push(
            state.enclosing.drop_last(),
            state.enclosing.last(),
            Instr::Loop(state.current),
        );
        lemma_close_count(
            ParseState {
                enclosing: state.enclosing.drop_last(),
                current: state.enclosing.last().push(Instr::Loop(state.current)),
                stopped: state.stopped,
            },
        );
    }
}

/// A parsed program holds no more instructions than its text has
/// characters.
pub proof fn lemma_parse_count(source: Seq<char>)
    ensures
        count(parse(source)) <= source.len(),
{
    lemma_scan_count(source);
    lemma_close_count(scan(source));
}

/// Counts the instructions of `commands` that are not loops, at every
/// depth.
pub fn count_instructions(commands: &Vec<Command>) -> (instructions: u32)
    requires
        count(program_view(commands@)) <= u32::MAX,
    ensures
        instructions == count(program_view(commands@)),
    decreases commands,
{
    let ghost program = program_view(commands@);
    proof {
        lemma_program_view(commands@);
        assert(program.subrange(0, 0) =~= Seq::<Instr>::empty());
    }
    let mut instructions: u32 = 0;
    let mut i: usize = 0;
    while i < commands.len()
        invariant
            i <= commands.len(),
            program == program_view(commands@),
            program.len() == commands@.len(),
            forall|k: int| 0 <= k < commands@.len() ==> program[k] == commands@[k]@,
            count(program) <= u32::MAX,
            instructions == count(program.subrange(0, i as int)),
        decreases commands.len() - i,
    {
        proof {
            lemma_count_prefix(program, i as int);
            lemma_count_prefix(program, i + 1);
        }
        let added = match &commands[i] {
            Command::Loop(body) => count_instructions(body),
            _ => 1,
        };
        instructions += added;
        i += 1;
    }
    proof {
        assert(program.subrange(0, commands@.len() as int) =~= program);
    }
    instructions
}

} // verus!
