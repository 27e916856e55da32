//! An interpreter for an eight-instruction language on a circular tape of
//! bytes: a parser, a pass that merges runs of one instruction, an
//! execution engine and an instruction counter, each proved against a
//! mathematical model of programs and of the machine.

pub mod command;
pub mod counter;
pub mod engine;
pub mod equivalence;
pub mod machine;
pub mod optimizer;
pub mod parser;
pub mod printer;
pub mod stepping;
