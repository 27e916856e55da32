//! Instructions, as the interpreter holds them and as the proofs see them.

use vstd::prelude::*;

verus! {

/// One instruction as the proofs see it: counts are unbounded and a loop
/// body is a mathematical sequence.
pub enum Instr {
    MoveRight(nat),
    MoveLeft(nat),
    Increment(nat),
    Decrement(nat),
    Print,
    Read,
    Loop(Seq<Instr>),
}

/// One instruction of a program. A `Loop` owns its body; a program is a
/// `Vec<Command>`.
#[derive(Debug, PartialEq)]
pub enum Command {
    MoveRight(usize),
    MoveLeft(usize),
    Increment(usize),
    Decrement(usize),
    Print,
    Read,
    Loop(Vec<Command>),
}

impl View for Command {
    type V = Instr;

    open spec fn view(&self) -> Instr {
        instr_of(*self)
    }
}

/// The model of one instruction.
pub open spec fn instr_of(command: Command) -> Instr
    decreases command,
{
    match command {
        Command::MoveRight(n) => Instr::MoveRight(n as nat),
        Command::MoveLeft(n) => Instr::MoveLeft(n as nat),
        Command::Increment(n) => Instr::Increment(n as nat),
        Command::Decrement(n) => Instr::Decrement(n as nat),
        Command::Print => Instr::Print,
        Command::Read => Instr::Read,
        Command::Loop(body) => Instr::Loop(program_view(body@)),
    }
}

/// The model of a program: the model of each of its instructions, in order.
pub open spec fn program_view(commands: Seq<Command>) -> Seq<Instr>
    decreases commands,
{
    if commands.len() == 0 {
        Seq::empty()
    } else {
        program_view(commands.drop_last()).push(instr_of(commands.last()))
    }
}

/// `program_view` keeps the length and maps position by position.
pub proof fn lemma_program_view(commands: Seq<Command>)
    ensures
        program_view(commands).len() == commands.len(),
        forall|i: int| 0 <= i < commands.len() ==> program_view(commands)[i] == commands[i]@,
    decreases commands.len(),
{
    if commands.len() > 0 {
        lemma_program_view(commands.drop_last());
    }
}

/// The model of a program with one more instruction is the model of the
/// program with the model of that instruction after it.
pub proof fn lemma_program_view_push(commands: Seq<Command>, command: Command)
    ensures
        program_view(commands.push(command)) == program_view(commands).push(instr_of(command)),
{
    assert(commands.push(command).drop_last() =~= commands);
}

/// How often an instruction applies: its count, or once where it has none.
pub open spec fn repeats(instr: Instr) -> nat {
    match instr {
        Instr::MoveRight(count) => count,
        Instr::MoveLeft(count) => count,
        Instr::Increment(count) => count,
        Instr::Decrement(count) => count,
        _ => 1,
    }
}

/// Every count in `program`, loop bodies included, is at least `least`.
pub open spec fn counts_at_least(program: Seq<Instr>, least: nat) -> bool
    decreases program,
{
    forall|i: int|
        0 <= i < program.len() ==> {
            &&& repeats(#[trigger] program[i]) >= least
            &&& match program[i] {
                Instr::Loop(body) => counts_at_least(body, least),
                _ => true,
            }
        }
}

/// Every count in `program`, loop bodies included, is at most `most`.
pub open spec fn counts_at_most(program: Seq<Instr>, most: nat) -> bool
    decreases program,
{
    forall|i: int|
        0 <= i < program.len() ==> {
            &&& repeats(#[trigger] program[i]) <= most
            &&& match program[i] {
                Instr::Loop(body) => counts_at_most(body, most),
                _ => true,
            }
        }
}

/// `program` and every loop body in it hold at most `most` instructions
/// each.
pub open spec fn lengths_at_most(program: Seq<Instr>, most: nat) -> bool
    decreases program,
{
    &&& program.len() <= most
    &&& forall|i: int|
        0 <= i < program.len() ==> match #[trigger] program[i] {
            Instr::Loop(body) => lengths_at_most(body, most),
            _ => true,
        }
}

/// No sequence of a program in memory is longer than a `usize` can say.
pub proof fn lemma_lengths_fit(commands: Vec<Command>)
    ensures
        lengths_at_most(program_view(commands@), usize::MAX as nat),
    decreases commands,
{
    let program = program_view(commands@);
    lemma_program_view(commands@);
    assert(commands@.len() == commands.len());
    assert forall|i: int| 0 <= i < program.len() implies match #[trigger] program[i] {
        Instr::Loop(body) => lengths_at_most(body, usize::MAX as nat),
        _ => true,
    } by {
        match commands@[i] {
            Command::Loop(body) => {
                lemma_lengths_fit(body);
            },
            _ => {},
        }
    }
}

} // verus!
