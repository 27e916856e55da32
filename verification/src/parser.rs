//! Parsing source text into a program.
//!
//! The text is read once, left to right. Eight characters carry meaning;
//! every other character is a comment. Brackets need not balance: a `]` with
//! no open loop ends the program there, and loops still open at the end of
//! the text end with it.

use crate::command::{
    counts_at_least, counts_at_most, lemma_program_view_push, program_view, repeats, Command,
    Instr,
};
use vstd::prelude::*;
use vstd::std_specs::iter::IteratorSpec;

verus! {

/// What the parser holds after reading some prefix of the text.
pub struct ParseState {
    /// The sequences of the loops that are open, outermost first, each as
    /// far as it was read before the next loop opened.
    pub enclosing: Seq<Seq<Instr>>,
    /// The sequence being read: the body of the innermost open loop, or the
    /// program itself when no loop is open.
    pub current: Seq<Instr>,
    /// Whether a `]` with no open loop has ended the program.
    pub stopped: bool,
}

/// The state before any character is read.
pub open spec fn initial_state() -> ParseState {
    ParseState { enclosing: Seq::empty(), current: Seq::empty(), stopped: false }
}

/// The instruction that a character other than a bracket stands for, if any.
pub open spec fn simple_instr(c: char) -> Option<Instr> {
    if c == '>' {
        Some(Instr::MoveRight(1))
    } else if c == '<' {
        Some(Instr::MoveLeft(1))
    } else if c == '+' {
        Some(Instr::Increment(1))
    } else if c == '-' {
        Some(Instr::Decrement(1))
    } else if c == '.' {
        Some(Instr::Print)
    } else if c == ',' {
        Some(Instr::Read)
    } else {
        None
    }
}

/// The state after one more character.
pub open spec fn feed(state: ParseState, c: char) -> ParseState {
    if state.stopped {
        state
    } else if c == '[' {
        ParseState {
            enclosing: state.enclosing.push(state.current),
            current: Seq::empty(),
            stopped: false,
        }
    } else if c == ']' {
        if state.enclosing.len() == 0 {
            ParseState { stopped: true, ..state }
        } else {
            ParseState {
                enclosing: state.enclosing.drop_last(),
                current: state.enclosing.last().push(Instr::Loop(state.current)),
                stopped: false,
            }
        }
    } else {
        match simple_instr(c) {
            Some(instr) => ParseState { current: state.current.push(instr), ..state },
            None => state,
        }
    }
}

/// The state after `text`, read from `state` on.
pub open spec fn scan_from(state: ParseState, text: Seq<char>) -> ParseState
    decreases text.len(),
{
    if text.len() == 0 {
        state
    } else {
        feed(scan_from(state, text.drop_last()), text.last())
    }
}

/// The state after the whole of `source`.
pub open spec fn scan(source: Seq<char>) -> ParseState {
    scan_from(initial_state(), source)
}

/// The program that a state stands for: every loop still open is closed
/// where the text ended.
pub open spec fn close(state: ParseState) -> Seq<Instr>
    decreases state.enclosing.len(),
{
    if state.enclosing.len() == 0 {
        state.current
    } else {
        close(
            ParseState {
                enclosing: state.enclosing.drop_last(),
                current: state.enclosing.last().push(Instr::Loop(state.current)),
                stopped: state.stopped,
            },
        )
    }
}

/// The program that `source` denotes.
pub open spec fn parse(source: Seq<char>) -> Seq<Instr> {
    close(scan(source))
}

/// The models of the sequences on the parser's stack.
spec fn frames_view(frames: Seq<Vec<Command>>) -> Seq<Seq<Instr>> {
    Seq::new(frames.len(), |i: int| program_view(frames[i]@))
}

/// Once a `]` with no open loop has ended the program, the rest of the
/// text changes nothing.
pub proof fn lemma_stopped_absorbs(head: Seq<char>, tail: Seq<char>)
    requires
        scan(head).stopped,
    ensures
        scan(head + tail) == scan(head),
    decreases tail.len(),
{
    if tail.len() == 0 {
        assert(head + tail =~= head);
    } else {
        lemma_stopped_absorbs(head, tail.drop_last());
        assert((head + tail).drop_last() =~= head + tail.drop_last());
    }
}

/// Every count that the parser holds is one.
spec fn unit_state(state: ParseState) -> bool {
    &&& counts_at_least(state.current, 1)
    &&& counts_at_most(state.current, 1)
    &&& forall|i: int|
        0 <= i < state.enclosing.len() ==> {
            &&& counts_at_least(#[trigger] state.enclosing[i], 1)
            &&& counts_at_most(state.enclosing[i], 1)
        }
}

proof fn lemma_unit_push(program: Seq<Instr>, instr: Instr)
    requires
        counts_at_least(program, 1),
        counts_at_most(program, 1),
        repeats(instr) == 1,
        match instr {
            Instr::Loop(body) => counts_at_least(body, 1) && counts_at_most(body, 1),
            _ => true,
        },
    ensures
        counts_at_least(program.push(instr), 1),
        counts_at_most(program.push(instr), 1),
{
    let longer = program.push(instr);
    assert forall|i: int| 0 <= i < longer.len() implies {
        &&& repeats(#[trigger] longer[i]) >= 1
        &&& repeats(longer[i]) <= 1
        &&& match longer[i] {
            Instr::Loop(body) => counts_at_least(body, 1) && counts_at_most(body, 1),
            _ => true,
        }
    } by {
        if i < program.len() {
            assert(longer[i] == program[i]);
        }
    }
}

proof fn lemma_feed_unit(state: ParseState, c: char)
    requires
        unit_state(state),
    ensures
        unit_state(feed(state, c)),
{
    let next = feed(state, c);
    if state.stopped {
    } else if c == '[' {
        assert forall|i: int| 0 <= i < next.enclosing.len() implies {
            &&& counts_at_least(#[trigger] next.enclosing[i], 1)
            &&& counts_at_most(next.enclosing[i], 1)
        } by {
            if i < state.enclosing.len() {
                assert(next.enclosing[i] == state.enclosing[i]);
            }
        }
    } else if c == ']' {
        if state.enclosing.len() > 0 {
            let last = state.enclosing.len() - 1;
            assert(state.enclosing.last() == state.enclosing[last]);
            lemma_unit_push(state.enclosing.last(), Instr::Loop(state.current));
            assert forall|i: int| 0 <= i < next.enclosing.len() implies {
                &&& counts_at_least(#[trigger] next.enclosing[i], 1)
                &&& counts_at_most(next.enclosing[i], 1)
            } by {
                assert(next.enclosing[i] == state.enclosing[i]);
            }
        }
    } else {
        match simple_instr(c) {
            Some(instr) => lemma_unit_push(state.current, instr),
            None => {},
        }
    }
}

proof fn lemma_scan_unit(source: Seq<char>)
    ensures
        unit_state(scan(source)),
    decreases source.len(),
{
    if source.len() > 0 {
        lemma_scan_unit(source.drop_last());
        lemma_feed_unit(scan(source.drop_last()), source.last());
    }
}

proof fn lemma_close_unit(state: ParseState)
    requires
        unit_state(state),
    ensures
        counts_at_least(close(state), 1),
        counts_at_most(close(state), 1),
    decreases state.enclosing.len(),
{
    if state.enclosing.len() > 0 {
        let last = state.enclosing.len() - 1;
        assert(state.enclosing.last() == state.enclosing[last]);
        lemma_unit_push(state.enclosing.last(), Instr::Loop(state.current));
        let next = ParseState {
            enclosing: state.enclosing.drop_last(),
            current: state.enclosing.last().push(Instr::Loop(state.current)),
            stopped: state.stopped,
        };
        assert forall|i: int| 0 <= i < next.enclosing.len() implies {
            &&& counts_at_least(#[trigger] next.enclosing[i], 1)
            &&& counts_at_most(next.enclosing[i], 1)
        } by {
            assert(next.enclosing[i] == state.enclosing[i]);
        }
        lemma_close_unit(next);
    }
}

/// Every count in a parsed program is one.
pub proof fn lemma_parse_unit_counts(source: Seq<char>)
    ensures
        counts_at_least(parse(source), 1),
        counts_at_most(parse(source), 1),
{
    lemma_scan_unit(source);
    lemma_close_unit(scan(source));
}

/// Parses `input` into a program. Never fails: unbalanced brackets are
/// tolerated as the module says.
pub fn parse_commands(input: &str) -> (program: Vec<Command>)
    ensures
        program_view(program@) == parse(input@),
        counts_at_least(program_view(program@), 1),
        counts_at_most(program_view(program@), 1),
{
    proof {
        lemma_parse_unit_counts(input@);
    }
    let mut enclosing: Vec<Vec<Command>> = Vec::new();
    let mut current: Vec<Command> = Vec::new();
    let mut chars = input.chars();
    let ghost mut consumed: Seq<char> = Seq::empty();
    let mut stopped = false;
    assert(frames_view(enclosing@) =~= initial_state().enclosing);
    assert(program_view(current@) =~= initial_state().current);
    assert(consumed + chars.remaining() =~= input@);
    while !stopped
        invariant
            chars.obeys_prophetic_iter_laws(),
            chars.decrease() is Some,
            consumed + chars.remaining() == input@,
            frames_view(enclosing@) == scan(consumed).enclosing,
            program_view(current@) == scan(consumed).current,
            stopped == scan(consumed).stopped,
            stopped ==> scan(input@) == scan(consumed),
        ensures
            scan(input@) == scan(consumed),
        decreases chars.decrease()->0,
    {
        let ghost before = chars.remaining();
        let ghost state = scan(consumed);
        match chars.next() {
            None => {
                assert(consumed =~= input@);
                break ;
            },
            Some(c) => {
                proof {
                    assert(consumed.push(c).drop_last() =~= consumed);
                    assert(consumed.push(c) + chars.remaining() =~= consumed + before);
                    consumed = consumed.push(c);
                }
                if c == '[' {
                    enclosing.push(current);
                    current = Vec::new();
                } else if c == ']' {
                    match enclosing.pop() {
                        None => {
                            stopped = true;
                            proof {
                                lemma_stopped_absorbs(consumed, chars.remaining());
                            }
                        },
                        Some(mut parent) => {
                            proof {
                                lemma_program_view_push(parent@, Command::Loop(current));
                            }
                            parent.push(Command::Loop(current));
                            current = parent;
                        },
                    }
                } else if c == '>' {
                    proof {
                        lemma_program_view_push(current@, Command::MoveRight(1));
                    }
                    current.push(Command::MoveRight(1));
                } else if c == '<' {
                    proof {
                        lemma_program_view_push(current@, Command::MoveLeft(1));
                    }
                    current.push(Command::MoveLeft(1));
                } else if c == '+' {
                    proof {
                        lemma_program_view_push(current@, Command::Increment(1));
                    }
                    current.push(Command::Increment(1));
                } else if c == '-' {
                    proof {
                        lemma_program_view_push(current@, Command::Decrement(1));
                    }
                    current.push(Command::Decrement(1));
                } else if c == '.' {
                    proof {
                        lemma_program_view_push(current@, Command::Print);
                    }
                    current.push(Command::Print);
                } else if c == ',' {
                    proof {
                        lemma_program_view_push(current@, Command::Read);
                    }
                    current.push(Command::Read);
                }
                assert(frames_view(enclosing@) =~= feed(state, c).enclosing);
            },
        }
    }
    loop
        invariant
            close(
                ParseState {
                    enclosing: frames_view(enclosing@),
                    current: program_view(current@),
                    stopped: scan(input@).stopped,
                },
            ) == parse(input@),
        ensures
            program_view(current@) == parse(input@),
        decreases enclosing.len(),
    {
        let ghost frames = frames_view(enclosing@);
        match enclosing.pop() {
            None => {
                break ;
            },
            Some(mut parent) => {
                proof {
                    lemma_program_view_push(parent@, Command::Loop(current));
                }
                parent.push(Command::Loop(current));
                current = parent;
                assert(frames_view(enclosing@) =~= frames.drop_last());
            },
        }
    }
    current
}

} // verus!
