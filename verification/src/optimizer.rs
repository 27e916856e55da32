//! The peephole pass: every run of one kind of move or of one kind of cell
//! arithmetic becomes a single instruction that carries the run's total
//! count, in the program and in every loop body.

use crate::command::{
    counts_at_least, counts_at_most, instr_of, lemma_lengths_fit, lemma_program_view,
    lemma_program_view_push, lengths_at_most, program_view, repeats, Command, Instr,
};
use vstd::prelude::*;

verus! {

/// Whether two instructions are of one kind that merges: both moves to the
/// right, both moves to the left, both increments or both decrements.
pub open spec fn mergeable(left: Instr, right: Instr) -> bool {
    match (left, right) {
        (Instr::MoveRight(_), Instr::MoveRight(_)) => true,
        (Instr::MoveLeft(_), Instr::MoveLeft(_)) => true,
        (Instr::Increment(_), Instr::Increment(_)) => true,
        (Instr::Decrement(_), Instr::Decrement(_)) => true,
        _ => false,
    }
}

/// The one instruction that two mergeable instructions become.
pub open spec fn merge(left: Instr, right: Instr) -> Instr {
    match (left, right) {
        (Instr::MoveRight(i), Instr::MoveRight(j)) => Instr::MoveRight(i + j),
        (Instr::MoveLeft(i), Instr::MoveLeft(j)) => Instr::MoveLeft(i + j),
        (Instr::Increment(i), Instr::Increment(j)) => Instr::Increment(i + j),
        (Instr::Decrement(i), Instr::Decrement(j)) => Instr::Decrement(i + j),
        _ => right,
    }
}

/// An optimized sequence with one more instruction after it: merged into
/// the last where the two merge, appended where they do not.
pub open spec fn extend(optimized: Seq<Instr>, instr: Instr) -> Seq<Instr> {
    if optimized.len() > 0 && mergeable(optimized.last(), instr) {
        optimized.drop_last().push(merge(optimized.last(), instr))
    } else {
        optimized.push(instr)
    }
}

/// The optimized form of `program`.
pub open spec fn optimize(program: Seq<Instr>) -> Seq<Instr>
    decreases program,
{
    if program.len() == 0 {
        Seq::empty()
    } else {
        let last = match program.last() {
            Instr::Loop(body) => Instr::Loop(optimize(body)),
            other => other,
        };
        extend(optimize(program.drop_last()), last)
    }
}

/// Whether `grown` is `instr` itself, or `instr` with more of its kind
/// merged into it.
spec fn grown_from(grown: Instr, instr: Instr) -> bool {
    grown == instr || match (instr, grown) {
        (Instr::MoveRight(i), Instr::MoveRight(j)) => i <= j,
        (Instr::MoveLeft(i), Instr::MoveLeft(j)) => i <= j,
        (Instr::Increment(i), Instr::Increment(j)) => i <= j,
        (Instr::Decrement(i), Instr::Decrement(j)) => i <= j,
        _ => false,
    }
}

/// Whether the pass, having produced `earlier`, can still arrive at
/// `later`: all of `earlier` but its last instruction stands, and the last
/// may have grown.
spec fn leads_to(earlier: Seq<Instr>, later: Seq<Instr>) -> bool {
    earlier.len() > 0 ==> {
        &&& earlier.len() <= later.len()
        &&& earlier.drop_last() == later.subrange(0, earlier.len() - 1)
        &&& grown_from(later[earlier.len() - 1], earlier.last())
    }
}

proof fn lemma_leads_to_transitive(first: Seq<Instr>, second: Seq<Instr>, third: Seq<Instr>)
    requires
        leads_to(first, second),
        leads_to(second, third),
        first.len() > 0 ==> second.len() > 0,
    ensures
        leads_to(first, third),
{
    if first.len() > 0 {
        let n = first.len() as int;
        assert(first.drop_last() =~= third.subrange(0, n - 1)) by {
            assert forall|i: int| 0 <= i < n - 1 implies first.drop_last()[i] == third[i] by {
                assert(first.drop_last()[i] == second.subrange(0, n - 1)[i]);
                assert(second.drop_last()[i] == third.subrange(0, second.len() - 1)[i]);
            }
        }
        if n < second.len() {
            assert(second.drop_last()[n - 1] == third.subrange(0, second.len() - 1)[n - 1]);
        }
    }
}

/// What the pass has produced for a prefix of a program leads to what it
/// produces for the whole.
proof fn lemma_prefix_leads_to(program: Seq<Instr>, k: int)
    requires
        0 <= k <= program.len(),
    ensures
        leads_to(optimize(program.subrange(0, k)), optimize(program)),
        k > 0 ==> optimize(program.subrange(0, k)).len() > 0,
    decreases program.len() - k,
{
    let prefix = program.subrange(0, k);
    if k > 0 {
        assert(prefix.drop_last() =~= program.subrange(0, k - 1));
    }
    if k == program.len() {
        assert(prefix =~= program);
        let whole = optimize(program);
        if whole.len() > 0 {
            assert(whole.drop_last() =~= whole.subrange(0, whole.len() - 1));
        }
    } else {
        let next = program.subrange(0, k + 1);
        assert(next.drop_last() =~= prefix);
        lemma_prefix_leads_to(program, k + 1);
        let before = optimize(prefix);
        let after = optimize(next);
        if before.len() > 0 {
            assert(before.drop_last() =~= after.subrange(0, before.len() - 1));
        }
        lemma_leads_to_transitive(before, after, optimize(program));
    }
}

/// What the pass holds part-way: the instructions it has written out and
/// the one it still holds back, as one sequence.
spec fn produced(written: Seq<Command>, pending: Option<Command>) -> Seq<Instr> {
    match pending {
        Some(command) => program_view(written).push(instr_of(command)),
        None => program_view(written),
    }
}

/// Optimizes `commands`: merges each run of one kind of move or cell
/// arithmetic into one instruction that carries the sum of the counts,
/// here and in every loop body. No merged count may outgrow a `usize`;
/// `lemma_unit_counts_optimizable` shows that none does in a parsed
/// program.
pub fn optimize_commands(commands: Vec<Command>) -> (optimized: Vec<Command>)
    requires
        counts_at_most(optimize(program_view(commands@)), usize::MAX as nat),
    ensures
        program_view(optimized@) == optimize(program_view(commands@)),
        fully_merged(program_view(optimized@)),
        counts_at_least(program_view(commands@), 1) ==> counts_at_least(
            program_view(optimized@),
            1,
        ),
    decreases commands,
{
    let ghost source = commands@;
    let ghost program = program_view(source);
    let mut optimized: Vec<Command> = Vec::new();
    let mut pending: Option<Command> = None;
    proof {
        lemma_program_view(source);
        assert(program.subrange(0, 0) =~= Seq::<Instr>::empty());
        lemma_optimize_fully_merges(program);
        if counts_at_least(program, 1) {
            lemma_optimize_keeps_least(program, 1);
        }
    }
    for command in it: commands
        invariant
            it.seq() == source,
            program == program_view(source),
            program.len() == source.len(),
            forall|k: int| 0 <= k < source.len() ==> program[k] == source[k]@,
            forall|k: int| 0 <= k < source.len() ==> decreases_to!(commands => source[k]),
            counts_at_most(optimize(program), usize::MAX as nat),
            produced(optimized@, pending) == optimize(program.subrange(0, it.index())),
            it.index() > 0 ==> pending is Some,
    {
        let ghost k = it.index();
        let ghost before = optimize(program.subrange(0, k));
        let ghost after = optimize(program.subrange(0, k + 1));
        proof {
            assert(program.subrange(0, k + 1).drop_last() =~= program.subrange(0, k));
            lemma_prefix_leads_to(program, k + 1);
            assert(command == source[k]);
        }
        let ghost written = program_view(optimized@);
        proof {
            if k > 0 {
                assert(before.drop_last() =~= written);
            }
        }
        pending = match (pending, command) {
            (Some(Command::MoveRight(i)), Command::MoveRight(j)) => {
                assert(after =~= written.push(Instr::MoveRight((i + j) as nat)));
                Some(Command::MoveRight(i + j))
            },
            (Some(Command::MoveLeft(i)), Command::MoveLeft(j)) => {
                assert(after =~= written.push(Instr::MoveLeft((i + j) as nat)));
                Some(Command::MoveLeft(i + j))
            },
            (Some(Command::Increment(i)), Command::Increment(j)) => {
                assert(after =~= written.push(Instr::Increment((i + j) as nat)));
                Some(Command::Increment(i + j))
            },
            (Some(Command::Decrement(i)), Command::Decrement(j)) => {
                assert(after =~= written.push(Instr::Decrement((i + j) as nat)));
                Some(Command::Decrement(i + j))
            },
            (held, Command::Loop(body)) => {
                if let Some(previous) = held {
                    proof {
                        lemma_program_view_push(optimized@, previous);
                    }
                    optimized.push(previous);
                }
                assert(after == before.push(Instr::Loop(optimize(program_view(body@)))));
                Some(Command::Loop(optimize_commands(body)))
            },
            (held, other) => {
                if let Some(previous) = held {
                    proof {
                        lemma_program_view_push(optimized@, previous);
                    }
                    optimized.push(previous);
                }
                assert(after == before.push(instr_of(other)));
                Some(other)
            },
        };
    }
    proof {
        assert(program.subrange(0, source.len() as int) =~= program);
    }
    if let Some(previous) = pending {
        proof {
            lemma_program_view_push(optimized@, previous);
        }
        optimized.push(previous);
    }
    optimized
}

/// Nothing is left to merge in `program`: no two neighbours merge, here
/// or in any loop body.
pub open spec fn fully_merged(program: Seq<Instr>) -> bool
    decreases program,
{
    &&& forall|i: int|
        0 <= i < program.len() - 1 ==> !mergeable(#[trigger] program[i], program[i + 1])
    &&& forall|i: int|
        0 <= i < program.len() ==> match #[trigger] program[i] {
            Instr::Loop(body) => fully_merged(body),
            _ => true,
        }
}

/// After the pass nothing is left to merge.
pub proof fn lemma_optimize_fully_merges(program: Seq<Instr>)
    ensures
        fully_merged(optimize(program)),
    decreases program,
{
    if program.len() > 0 {
        let before = optimize(program.drop_last());
        lemma_optimize_fully_merges(program.drop_last());
        let last = match program.last() {
            Instr::Loop(body) => {
                lemma_optimize_fully_merges(body);
                Instr::Loop(optimize(body))
            },
            other => other,
        };
        let after = extend(before, last);
        assert(after == optimize(program));
        if before.len() > 0 && mergeable(before.last(), last) {
            assert forall|i: int| 0 <= i < after.len() - 1 implies !mergeable(
                #[trigger] after[i],
                after[i + 1],
            ) by {
                assert(after[i] == before[i]);
                if i + 1 < after.len() - 1 {
                    assert(after[i + 1] == before[i + 1]);
                } else {
                    assert(!mergeable(before[i], before[i + 1]));
                }
            }
            assert forall|i: int| 0 <= i < after.len() implies match #[trigger] after[i] {
                Instr::Loop(body) => fully_merged(body),
                _ => true,
            } by {
                if i < after.len() - 1 {
                    assert(after[i] == before[i]);
                }
            }
        } else {
            assert forall|i: int| 0 <= i < after.len() - 1 implies !mergeable(
                #[trigger] after[i],
                after[i + 1],
            ) by {
                assert(after[i] == before[i]);
                if i + 1 < after.len() - 1 {
                    assert(after[i + 1] == before[i + 1]);
                }
            }
            assert forall|i: int| 0 <= i < after.len() implies match #[trigger] after[i] {
                Instr::Loop(body) => fully_merged(body),
                _ => true,
            } by {
                if i < after.len() - 1 {
                    assert(after[i] == before[i]);
                }
            }
        }
    }
}

/// The pass leaves alone a program in which nothing is left to merge.
pub proof fn lemma_optimize_fixes_merged(program: Seq<Instr>)
    requires
        fully_merged(program),
    ensures
        optimize(program) == program,
    decreases program,
{
    if program.len() > 0 {
        let front = program.drop_last();
        assert forall|i: int| 0 <= i < front.len() - 1 implies !mergeable(
            #[trigger] front[i],
            front[i + 1],
        ) by {
            assert(front[i] == program[i]);
            assert(front[i + 1] == program[i + 1]);
        }
        assert forall|i: int| 0 <= i < front.len() implies match #[trigger] front[i] {
            Instr::Loop(body) => fully_merged(body),
            _ => true,
        } by {
            assert(front[i] == program[i]);
        }
        lemma_optimize_fixes_merged(front);
        let n = program.len() as int;
        assert(program.last() == program[n - 1]);
        match program.last() {
            Instr::Loop(body) => {
                lemma_optimize_fixes_merged(body);
            },
            _ => {},
        }
        if front.len() > 0 {
            assert(front.last() == program[n - 2]);
            assert(!mergeable(program[n - 2], program[n - 2 + 1]));
        }
        assert(front.push(program.last()) =~= program);
    }
}

/// Optimizing twice is optimizing once.
pub proof fn lemma_optimize_idempotent(program: Seq<Instr>)
    ensures
        optimize(optimize(program)) == optimize(program),
{
    lemma_optimize_fully_merges(program);
    lemma_optimize_fixes_merged(optimize(program));
}

/// The pass keeps every count at or above a bound that held before it.
pub proof fn lemma_optimize_keeps_least(program: Seq<Instr>, least: nat)
    requires
        counts_at_least(program, least),
    ensures
        counts_at_least(optimize(program), least),
    decreases program,
{
    if program.len() > 0 {
        let front = program.drop_last();
        assert forall|i: int| 0 <= i < front.len() implies {
            &&& repeats(#[trigger] front[i]) >= least
            &&& match front[i] {
                Instr::Loop(body) => counts_at_least(body, least),
                _ => true,
            }
        } by {
            assert(front[i] == program[i]);
        }
        lemma_optimize_keeps_least(front, least);
        let n = program.len() as int;
        assert(program.last() == program[n - 1]);
        let last = match program.last() {
            Instr::Loop(body) => {
                lemma_optimize_keeps_least(body, least);
                Instr::Loop(optimize(body))
            },
            other => other,
        };
        let before = optimize(front);
        let after = extend(before, last);
        assert forall|i: int| 0 <= i < after.len() implies {
            &&& repeats(#[trigger] after[i]) >= least
            &&& match after[i] {
                Instr::Loop(body) => counts_at_least(body, least),
                _ => true,
            }
        } by {
            if i < after.len() - 1 {
                assert(after[i] == before[i]);
            } else if before.len() > 0 && mergeable(before.last(), last) {
                assert(before.last() == before[before.len() - 1]);
            }
        }
    }
}

/// A program whose counts are all one, optimized, has no count above the
/// length of its longest sequence.
pub proof fn lemma_optimize_unit_counts(program: Seq<Instr>, limit: nat)
    requires
        counts_at_most(program, 1),
        lengths_at_most(program, limit),
    ensures
        counts_at_most(optimize(program), limit),
        forall|i: int|
            0 <= i < optimize(program).len() ==> repeats(#[trigger] optimize(program)[i])
                <= program.len(),
    decreases program,
{
    if program.len() > 0 {
        let front = program.drop_last();
        assert forall|i: int| 0 <= i < front.len() implies {
            &&& repeats(#[trigger] front[i]) <= 1
            &&& match front[i] {
                Instr::Loop(body) => counts_at_most(body, 1),
                _ => true,
            }
        } by {
            assert(front[i] == program[i]);
        }
        assert forall|i: int| 0 <= i < front.len() implies match #[trigger] front[i] {
            Instr::Loop(body) => lengths_at_most(body, limit),
            _ => true,
        } by {
            assert(front[i] == program[i]);
        }
        lemma_optimize_unit_counts(front, limit);
        let n = program.len() as int;
        assert(program.last() == program[n - 1]);
        let last = match program.last() {
            Instr::Loop(body) => {
                lemma_optimize_unit_counts(body, limit);
                Instr::Loop(optimize(body))
            },
            other => other,
        };
        let before = optimize(front);
        let after = extend(before, last);
        assert forall|i: int| 0 <= i < after.len() implies {
            &&& repeats(#[trigger] after[i]) <= program.len()
            &&& repeats(after[i]) <= limit
            &&& match after[i] {
                Instr::Loop(body) => counts_at_most(body, limit),
                _ => true,
            }
        } by {
            if i < after.len() - 1 {
                assert(after[i] == before[i]);
            } else if before.len() > 0 && mergeable(before.last(), last) {
                assert(before.last() == before[before.len() - 1]);
            }
        }
    }
}

/// A program in memory whose counts are all one can be optimized: no
/// merged count outgrows a `usize`.
pub proof fn lemma_unit_counts_optimizable(commands: Vec<Command>)
    requires
        counts_at_most(program_view(commands@), 1),
    ensures
        counts_at_most(optimize(program_view(commands@)), usize::MAX as nat),
{
    lemma_lengths_fit(commands);
    lemma_optimize_unit_counts(program_view(commands@), usize::MAX as nat);
}

} // verus!
