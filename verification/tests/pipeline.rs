use brainfuck::command::Command;
use brainfuck::counter::count_instructions;
use brainfuck::engine::{Cursor, Engine, EngineError, MAX_POSITIONS};
use brainfuck::optimizer::optimize_commands;
use brainfuck::parser::parse_commands;
use brainfuck::stepping::Status;
use std::error::Error;

const HELLO_WORLD: &str = "+[-[<<[+[--->]-[<<<]]]>>>-]>-.---.>..>.<<<<-.<+.>>>>>.>.<<.<-.";

fn run(commands: &[Command]) -> (Engine, Vec<u8>, Result<(), EngineError>) {
    let mut engine = Engine::new();
    let mut out = Vec::new();
    let result = engine.execute(commands, &mut out);
    (engine, out, result)
}

#[test]
fn test_hello_world() -> Result<(), Box<dyn Error>> {
    let mut buf = Vec::new();
    let input = "+[-[<<[+[--->]-[<<<]]]>>>-]>-.---.>..>.<<<<-.<+.>>>>>.>.<<.<-.";
    let commands = parse_commands(input);
    let mut engine = Engine::new();
    assert_eq!(engine.execute(&commands, &mut buf), Ok(()));
    let output = String::from_utf8(buf)?;
    assert_eq!(output, "hello world");
    Ok(())
}

#[test]
fn test_opt_cmds() {
    let commands = vec![
        Command::Increment(1),
        Command::Increment(1),
        Command::MoveRight(1),
        Command::MoveRight(1),
        Command::Loop(vec![
            Command::Decrement(1),
            Command::Decrement(1),
        ])
    ];

    let commands = optimize_commands(commands);
    assert_eq!(commands, vec![
        Command::Increment(2),
        Command::MoveRight(2),
        Command::Loop(vec![
            Command::Decrement(2),
        ])
    ])
}

#[test]
fn test() -> Result<(), Box<dyn Error>> {
    let mut buf = Vec::new();
    let input = "+>++<-";
    let commands = parse_commands(input);
    assert_eq!(
        commands,
        vec![
            Command::Increment(1),
            Command::MoveRight(1),
            Command::Increment(1),
            Command::Increment(1),
            Command::MoveLeft(1),
            Command::Decrement(1),
        ]
    );
    let mut engine = Engine::new();
    assert_eq!(engine.execute(&commands, &mut buf), Ok(()));
    let output = String::from_utf8(buf)?;
    assert_eq!(engine.data()[0], 0);
    assert_eq!(engine.data()[1], 2);
    assert_eq!(output, "");
    Ok(())
}

#[test]
fn parse_read_then_increment() {
    assert_eq!(parse_commands(",+"), vec![Command::Read, Command::Increment(1)]);
}

#[test]
fn parse_empty_source() {
    assert_eq!(parse_commands(""), Vec::<Command>::new());
}

#[test]
fn parse_every_instruction() {
    assert_eq!(
        parse_commands("><+-.,[]"),
        vec![
            Command::MoveRight(1),
            Command::MoveLeft(1),
            Command::Increment(1),
            Command::Decrement(1),
            Command::Print,
            Command::Read,
            Command::Loop(vec![]),
        ]
    );
}

#[test]
fn parse_skips_comments() {
    assert_eq!(
        parse_commands("a + b\n- \u{e9}[x.y]!"),
        vec![
            Command::Increment(1),
            Command::Decrement(1),
            Command::Loop(vec![Command::Print]),
        ]
    );
}

#[test]
fn parse_nested_loops() {
    assert_eq!(
        parse_commands("+[-[>]<[.]]+"),
        vec![
            Command::Increment(1),
            Command::Loop(vec![
                Command::Decrement(1),
                Command::Loop(vec![Command::MoveRight(1)]),
                Command::MoveLeft(1),
                Command::Loop(vec![Command::Print]),
            ]),
            Command::Increment(1),
        ]
    );
}

#[test]
fn parse_unmatched_close_ends_the_program() {
    assert_eq!(parse_commands("+]+[-]"), vec![Command::Increment(1)]);
    assert_eq!(parse_commands("]"), Vec::<Command>::new());
    assert_eq!(
        parse_commands("[+]-]>>"),
        vec![Command::Loop(vec![Command::Increment(1)]), Command::Decrement(1)]
    );
}

#[test]
fn parse_unmatched_open_ends_with_the_text() {
    assert_eq!(
        parse_commands("+[-"),
        vec![Command::Increment(1), Command::Loop(vec![Command::Decrement(1)])]
    );
    assert_eq!(
        parse_commands("[[>"),
        vec![Command::Loop(vec![Command::Loop(vec![Command::MoveRight(1)])])]
    );
    assert_eq!(parse_commands("["), vec![Command::Loop(vec![])]);
}

#[test]
fn parse_never_counts_above_one() {
    assert_eq!(
        parse_commands("+++"),
        vec![Command::Increment(1), Command::Increment(1), Command::Increment(1)]
    );
}

#[test]
fn optimize_empty_program() {
    assert_eq!(optimize_commands(vec![]), Vec::<Command>::new());
}

#[test]
fn optimize_sums_counts() {
    assert_eq!(
        optimize_commands(vec![
            Command::MoveLeft(3),
            Command::MoveLeft(4),
            Command::MoveLeft(5),
            Command::Decrement(250),
            Command::Decrement(10),
        ]),
        vec![Command::MoveLeft(12), Command::Decrement(260)]
    );
}

#[test]
fn optimize_keeps_kinds_apart() {
    let commands = vec![
        Command::Increment(1),
        Command::Decrement(1),
        Command::MoveRight(1),
        Command::MoveLeft(1),
    ];
    assert_eq!(
        optimize_commands(commands),
        vec![
            Command::Increment(1),
            Command::Decrement(1),
            Command::MoveRight(1),
            Command::MoveLeft(1),
        ]
    );
}

#[test]
fn optimize_never_merges_print_or_read() {
    assert_eq!(
        optimize_commands(vec![
            Command::Print,
            Command::Print,
            Command::Read,
            Command::Read,
            Command::Increment(1),
            Command::Print,
            Command::Increment(1),
        ]),
        vec![
            Command::Print,
            Command::Print,
            Command::Read,
            Command::Read,
            Command::Increment(1),
            Command::Print,
            Command::Increment(1),
        ]
    );
}

#[test]
fn optimize_never_merges_across_a_loop() {
    assert_eq!(
        optimize_commands(parse_commands("++[--]++[[>>]>]")),
        vec![
            Command::Increment(2),
            Command::Loop(vec![Command::Decrement(2)]),
            Command::Increment(2),
            Command::Loop(vec![
                Command::Loop(vec![Command::MoveRight(2)]),
                Command::MoveRight(1),
            ]),
        ]
    );
}

#[test]
fn optimize_reaches_a_leading_loop() {
    assert_eq!(
        optimize_commands(parse_commands("[++[--]]")),
        vec![Command::Loop(vec![
            Command::Increment(2),
            Command::Loop(vec![Command::Decrement(2)]),
        ])]
    );
}

#[test]
fn optimize_twice_is_optimize_once() {
    for source in [HELLO_WORLD, "", "+++>>><<<---", "++[>>[--]<<]..,,++", "[[[+++]]]"] {
        let once = optimize_commands(parse_commands(source));
        let twice = optimize_commands(optimize_commands(parse_commands(source)));
        assert_eq!(once, twice);
    }
}

#[test]
fn optimized_program_runs_the_same() {
    for source in [HELLO_WORLD, "+>++<-", "++++[>+++.<-]>.", "-[>-<-]>.<<<+.", "+++.,+++."] {
        let (plain, plain_out, plain_result) = run(&parse_commands(source));
        let (fast, fast_out, fast_result) = run(&optimize_commands(parse_commands(source)));
        assert_eq!(plain_result, fast_result);
        assert_eq!(plain_out, fast_out);
        assert_eq!(plain.data()[..], fast.data()[..]);
        assert_eq!(plain.pos(), fast.pos());
    }
}

#[test]
fn new_engine_is_blank() {
    let engine = Engine::new();
    assert_eq!(MAX_POSITIONS, 30000);
    assert_eq!(engine.data().len(), 30000);
    assert!(engine.data().iter().all(|cell| *cell == 0));
    assert_eq!(engine.pos(), 0);
    assert_eq!(engine.val(), 0);
}

#[test]
fn empty_program_changes_nothing() {
    let (engine, out, result) = run(&parse_commands(""));
    assert_eq!(result, Ok(()));
    assert_eq!(out, Vec::<u8>::new());
    assert!(engine.data().iter().all(|cell| *cell == 0));
    assert_eq!(engine.pos(), 0);
}

#[test]
fn cell_wraps_below_zero() {
    let (engine, _, result) = run(&[Command::Decrement(1)]);
    assert_eq!(result, Ok(()));
    assert_eq!(engine.val(), 255);
    assert_eq!(engine.data()[0], 255);
}

#[test]
fn cell_wraps_above_255() {
    let (engine, _, _) = run(&[Command::Increment(255), Command::Increment(3)]);
    assert_eq!(engine.val(), 2);
}

#[test]
fn increment_by_256_is_identity() {
    for start in [0usize, 1, 77, 255] {
        let (engine, _, _) = run(&[Command::Increment(start), Command::Increment(256)]);
        assert_eq!(engine.val() as usize, start);
        let (engine, _, _) = run(&[Command::Increment(start), Command::Decrement(256)]);
        assert_eq!(engine.val() as usize, start);
    }
}

#[test]
fn large_counts_act_modulo_256() {
    let (engine, _, _) = run(&[Command::Increment(1000)]);
    assert_eq!(engine.val(), 232);
    let (engine, _, _) = run(&[Command::Decrement(1000)]);
    assert_eq!(engine.val(), 24);
    let (engine, _, _) = run(&[Command::Increment(usize::MAX)]);
    assert_eq!(engine.val(), 255);
}

#[test]
fn pointer_wraps_at_the_right_end() {
    let (engine, _, _) = run(&[Command::MoveRight(MAX_POSITIONS - 1)]);
    assert_eq!(engine.pos(), MAX_POSITIONS - 1);
    let (engine, _, _) = run(&[Command::MoveRight(MAX_POSITIONS - 1), Command::MoveRight(1)]);
    assert_eq!(engine.pos(), 0);
}

#[test]
fn pointer_wraps_at_the_left_end() {
    let (engine, _, _) = run(&[Command::MoveLeft(1)]);
    assert_eq!(engine.pos(), MAX_POSITIONS - 1);
    let (engine, _, _) = run(&[Command::MoveLeft(1), Command::Increment(5)]);
    assert_eq!(engine.data()[MAX_POSITIONS - 1], 5);
    assert_eq!(engine.data()[0], 0);
}

#[test]
fn full_circle_returns_to_the_same_cell() {
    for start in [0usize, 1, 12345, MAX_POSITIONS - 1] {
        let (engine, _, _) = run(&[Command::MoveRight(start), Command::MoveRight(MAX_POSITIONS)]);
        assert_eq!(engine.pos(), start);
        let (engine, _, _) = run(&[Command::MoveRight(start), Command::MoveLeft(MAX_POSITIONS)]);
        assert_eq!(engine.pos(), start);
    }
}

#[test]
fn large_moves_act_modulo_the_tape() {
    let (engine, _, _) = run(&[Command::MoveRight(2 * MAX_POSITIONS + 7)]);
    assert_eq!(engine.pos(), 7);
    let (engine, _, _) = run(&[Command::MoveLeft(2 * MAX_POSITIONS + 7)]);
    assert_eq!(engine.pos(), MAX_POSITIONS - 7);
    let (engine, _, _) = run(&[Command::MoveRight(usize::MAX)]);
    assert_eq!(engine.pos(), usize::MAX % MAX_POSITIONS);
    let (engine, _, _) = run(&[Command::MoveRight(3), Command::MoveLeft(usize::MAX)]);
    assert_eq!(engine.pos(), (3 + MAX_POSITIONS - usize::MAX % MAX_POSITIONS) % MAX_POSITIONS);
}

#[test]
fn print_writes_the_current_cell() {
    let (_, out, result) = run(&parse_commands("+.+.>.<-."));
    assert_eq!(result, Ok(()));
    assert_eq!(out, vec![1, 2, 0, 1]);
}

#[test]
fn print_writes_raw_bytes() {
    let (_, out, _) = run(&[Command::Decrement(1), Command::Print]);
    assert_eq!(out, vec![255]);
}

#[test]
fn execute_appends_to_the_sink() {
    let mut engine = Engine::new();
    let mut out = vec![9, 8];
    assert_eq!(engine.execute(&parse_commands("+."), &mut out), Ok(()));
    assert_eq!(engine.execute(&parse_commands("+."), &mut out), Ok(()));
    assert_eq!(out, vec![9, 8, 1, 2]);
}

#[test]
fn loop_is_skipped_on_zero() {
    let (engine, out, result) = run(&parse_commands("[.+,]>+"));
    assert_eq!(result, Ok(()));
    assert_eq!(out, Vec::<u8>::new());
    assert_eq!(engine.data()[0], 0);
    assert_eq!(engine.data()[1], 1);
}

#[test]
fn loop_runs_until_zero() {
    let (engine, out, _) = run(&parse_commands("+++[>++<-.]"));
    assert_eq!(out, vec![2, 1, 0]);
    assert_eq!(engine.data()[0], 0);
    assert_eq!(engine.data()[1], 6);
}

#[test]
fn nested_loops_multiply() {
    let (engine, _, _) = run(&parse_commands("+++[>++++[>+++++<-]<-]"));
    assert_eq!(engine.data()[2], 60);
}

#[test]
fn read_is_unsupported() {
    let (_, out, result) = run(&parse_commands(","));
    assert_eq!(result, Err(EngineError::UnsupportedInstruction));
    assert_eq!(out, Vec::<u8>::new());
}

#[test]
fn read_stops_the_run_where_it_stands() {
    let (engine, out, result) = run(&parse_commands("+.>++.,+.>+"));
    assert_eq!(result, Err(EngineError::UnsupportedInstruction));
    assert_eq!(out, vec![1, 2]);
    assert_eq!(engine.pos(), 1);
    assert_eq!(engine.data()[1], 2);
    assert_eq!(engine.data()[2], 0);
}

#[test]
fn read_inside_a_loop_stops_the_run() {
    let (engine, out, result) = run(&parse_commands("++[-.,.]+."));
    assert_eq!(result, Err(EngineError::UnsupportedInstruction));
    assert_eq!(out, vec![1]);
    assert_eq!(engine.data()[0], 1);
}

#[test]
fn count_of_flat_program() {
    assert_eq!(count_instructions(&parse_commands("+>++<-")), 6);
    assert_eq!(count_instructions(&parse_commands("")), 0);
    assert_eq!(count_instructions(&parse_commands(".,")), 2);
}

#[test]
fn count_skips_the_loops_themselves() {
    assert_eq!(count_instructions(&parse_commands("[]")), 0);
    assert_eq!(count_instructions(&parse_commands("[[[]]]")), 0);
    assert_eq!(count_instructions(&parse_commands("+[-[>]<]")), 4);
}

#[test]
fn count_takes_a_merged_run_as_one() {
    let commands = parse_commands("++>>[--]");
    assert_eq!(count_instructions(&commands), 6);
    assert_eq!(count_instructions(&optimize_commands(commands)), 3);
}

#[test]
fn count_of_hello_world() {
    let commands = parse_commands(HELLO_WORLD);
    assert_eq!(count_instructions(&commands), 52);
    assert_eq!(count_instructions(&optimize_commands(commands)), 35);
}

#[test]
fn advance_with_no_budget_does_nothing() {
    let commands = parse_commands("+.");
    let mut engine = Engine::new();
    let mut cursor = Cursor::new(&commands);
    let mut out = Vec::new();
    assert_eq!(engine.advance(&mut cursor, &mut out, 0), Status::Running);
    assert_eq!(engine.val(), 0);
    assert_eq!(out, Vec::<u8>::new());
}

#[test]
fn advance_takes_one_instruction_per_step() {
    let commands = parse_commands("+>-.");
    let mut engine = Engine::new();
    let mut cursor = Cursor::new(&commands);
    let mut out = Vec::new();
    assert_eq!(engine.advance(&mut cursor, &mut out, 1), Status::Running);
    assert_eq!((engine.pos(), engine.data()[0], engine.data()[1]), (0, 1, 0));
    assert_eq!(engine.advance(&mut cursor, &mut out, 1), Status::Running);
    assert_eq!((engine.pos(), engine.data()[0], engine.data()[1]), (1, 1, 0));
    assert_eq!(engine.advance(&mut cursor, &mut out, 1), Status::Running);
    assert_eq!((engine.pos(), engine.data()[0], engine.data()[1]), (1, 1, 255));
    assert_eq!(out, Vec::<u8>::new());
    assert_eq!(engine.advance(&mut cursor, &mut out, 1), Status::Running);
    assert_eq!(out, vec![255]);
    assert_eq!(engine.advance(&mut cursor, &mut out, 1), Status::Finished);
    assert_eq!(engine.advance(&mut cursor, &mut out, 7), Status::Finished);
    assert_eq!((engine.pos(), engine.data()[0], engine.data()[1]), (1, 1, 255));
    assert_eq!(out, vec![255]);
}

#[test]
fn advance_counts_entering_repeating_and_leaving_a_loop() {
    let commands = parse_commands("++[-]+");
    let mut engine = Engine::new();
    let mut cursor = Cursor::new(&commands);
    let mut out = Vec::new();
    // two increments, enter, decrement, repeat, decrement, leave
    assert_eq!(engine.advance(&mut cursor, &mut out, 7), Status::Running);
    assert_eq!(engine.val(), 0);
    assert_eq!(engine.advance(&mut cursor, &mut out, 1), Status::Running);
    assert_eq!(engine.val(), 1);
    assert_eq!(engine.advance(&mut cursor, &mut out, 1), Status::Finished);
}

#[test]
fn advance_skips_a_loop_on_zero_in_one_step() {
    let commands = parse_commands("[+.]-");
    let mut engine = Engine::new();
    let mut cursor = Cursor::new(&commands);
    let mut out = Vec::new();
    assert_eq!(engine.advance(&mut cursor, &mut out, 1), Status::Running);
    assert_eq!(engine.val(), 0);
    assert_eq!(engine.advance(&mut cursor, &mut out, 1), Status::Running);
    assert_eq!(engine.val(), 255);
    assert_eq!(engine.advance(&mut cursor, &mut out, 1), Status::Finished);
    assert_eq!(out, Vec::<u8>::new());
}

#[test]
fn advance_stands_at_a_read() {
    let commands = parse_commands("+.,+.");
    let mut engine = Engine::new();
    let mut cursor = Cursor::new(&commands);
    let mut out = Vec::new();
    assert_eq!(engine.advance(&mut cursor, &mut out, 100), Status::Unsupported);
    assert_eq!(engine.advance(&mut cursor, &mut out, 100), Status::Unsupported);
    assert_eq!(engine.val(), 1);
    assert_eq!(out, vec![1]);
}

#[test]
fn advance_returns_from_a_program_that_never_ends() {
    let commands = parse_commands("+[.]");
    let mut engine = Engine::new();
    let mut cursor = Cursor::new(&commands);
    let mut out = Vec::new();
    assert_eq!(engine.advance(&mut cursor, &mut out, 1000), Status::Running);
    assert_eq!(engine.advance(&mut cursor, &mut out, 1000), Status::Running);
    // one step for `+`, one to enter, then two for each round
    assert_eq!(out, vec![1; 999]);
}

#[test]
fn advance_in_pieces_is_execute() {
    for budget in [1usize, 2, 3, 64, 1000, usize::MAX] {
        let commands = parse_commands(HELLO_WORLD);
        let mut engine = Engine::new();
        let mut cursor = Cursor::new(&commands);
        let mut out = Vec::new();
        while engine.advance(&mut cursor, &mut out, budget) == Status::Running {}
        let (whole, whole_out, result) = run(&commands);
        assert_eq!(result, Ok(()));
        assert_eq!(out, whole_out);
        assert_eq!(out, b"hello world".to_vec());
        assert_eq!(engine.data()[..], whole.data()[..]);
        assert_eq!(engine.pos(), whole.pos());
    }
}

#[test]
fn deep_nesting_needs_no_deep_stack() {
    let depth = 50_000;
    let mut source = String::from("+");
    for _ in 0..depth {
        source.push('[');
    }
    source.push('-');
    for _ in 0..depth {
        source.push(']');
    }
    let commands = parse_commands(&source);
    let (engine, _, result) = run(&commands);
    assert_eq!(result, Ok(()));
    assert_eq!(engine.val(), 0);
    // Dropping a tree goes down level by level on the call stack; at this
    // depth the tree is left alone instead.
    std::mem::forget(commands);
}
