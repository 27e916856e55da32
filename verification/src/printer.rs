//! The text of a program, and the proof that parsing it gives the program
//! back.

use crate::command::{counts_at_least, counts_at_most, Instr};
use crate::parser::{feed, initial_state, parse, scan_from, ParseState};
use vstd::prelude::*;

verus! {

/// The text of `program`: one character for each instruction, a loop's
/// body between brackets. Counts are not written: the text is that of the
/// program with every count taken as one.
pub open spec fn render(program: Seq<Instr>) -> Seq<char>
    decreases program,
{
    if program.len() == 0 {
        Seq::empty()
    } else {
        render(program.drop_last()) + match program.last() {
            Instr::MoveRight(_) => seq!['>'],
            Instr::MoveLeft(_) => seq!['<'],
            Instr::Increment(_) => seq!['+'],
            Instr::Decrement(_) => seq!['-'],
            Instr::Print => seq!['.'],
            Instr::Read => seq![','],
            Instr::Loop(body) => seq!['['] + render(body) + seq![']'],
        }
    }
}

proof fn lemma_scan_from_concat(state: ParseState, first: Seq<char>, second: Seq<char>)
    ensures
        scan_from(state, first + second) == scan_from(scan_from(state, first), second),
    decreases second.len(),
{
    if second.len() == 0 {
        assert(first + second =~= first);
    } else {
        assert((first + second).drop_last() =~= first + second.drop_last());
        lemma_scan_from_concat(state, first, second.drop_last());
    }
}

proof fn lemma_scan_from_one(state: ParseState, c: char)
    ensures
        scan_from(state, seq![c]) == feed(state, c),
{
    assert(seq![c].drop_last() =~= Seq::<char>::empty());
    reveal_with_fuel(scan_from, 2);
}

/// Reading the text of a program adds the program to the sequence being
/// read and leaves the open loops as they were.
proof fn lemma_scan_render(state: ParseState, program: Seq<Instr>)
    requires
        !state.stopped,
        counts_at_least(program, 1),
        counts_at_most(program, 1),
    ensures
        scan_from(state, render(program)) == (ParseState {
            current: state.current + program,
            ..state
        }),
    decreases program,
{
    if program.len() == 0 {
        assert(state.current + program =~= state.current);
    } else {
        let front = program.drop_last();
        let last = program.last();
        let n = program.len() as int;
        assert(last == program[n - 1]);
        assert forall|i: int| 0 <= i < front.len() implies front[i] == program[i] by {}
        assert(counts_at_least(front, 1));
        assert(counts_at_most(front, 1));
        lemma_scan_render(state, front);
        let middle = ParseState { current: state.current + front, ..state };
        let text = match last {
            Instr::MoveRight(_) => seq!['>'],
            Instr::MoveLeft(_) => seq!['<'],
            Instr::Increment(_) => seq!['+'],
            Instr::Decrement(_) => seq!['-'],
            Instr::Print => seq!['.'],
            Instr::Read => seq![','],
            Instr::Loop(body) => seq!['['] + render(body) + seq![']'],
        };
        lemma_scan_from_concat(state, render(front), text);
        assert(state.current + program =~= (state.current + front).push(last));
        match last {
            Instr::Loop(body) => {
                let opened = feed(middle, '[');
                lemma_scan_from_concat(middle, seq!['['] + render(body), seq![']']);
                lemma_scan_from_concat(middle, seq!['['], render(body));
                lemma_scan_from_one(middle, '[');
                lemma_scan_render(opened, body);
                let inside = scan_from(opened, render(body));
                lemma_scan_from_one(inside, ']');
                assert(opened.current + body =~= body);
                assert(opened.enclosing.drop_last() =~= middle.enclosing);
            },
            Instr::MoveRight(_) => lemma_scan_from_one(middle, '>'),
            Instr::MoveLeft(_) => lemma_scan_from_one(middle, '<'),
            Instr::Increment(_) => lemma_scan_from_one(middle, '+'),
            Instr::Decrement(_) => lemma_scan_from_one(middle, '-'),
            Instr::Print => lemma_scan_from_one(middle, '.'),
            Instr::Read => lemma_scan_from_one(middle, ','),
        }
    }
}

/// Parsing the text of a program gives the program back, where every
/// count in it is one.
pub proof fn lemma_parse_render(program: Seq<Instr>)
    requires
        counts_at_least(program, 1),
        counts_at_most(program, 1),
    ensures
        parse(render(program)) == program,
{
    lemma_scan_render(initial_state(), program);
    assert(initial_state().current + program =~= program);
}

} // verus!
