//! A verified interpreter for a minimal tape language of eight one-character
//! commands.
//!
//! A program goes through three stages. The lexical filter ([`lexer`]) keeps
//! the command characters of the source text and drops everything else. The
//! parser ([`parser`]) turns the opcodes into a tree in which a loop owns its
//! body; what it accepts and rejects is stated in terms of bracket balance in
//! [`balance`]. The evaluator ([`interp`]) walks the tree over a tape of cells
//! ([`memory`]).
//!
//! What a program means is defined in [`semantics`], and the evaluator is
//! proved to compute exactly that. The same meaning is offered a second way,
//! as a machine that is driven step by step and leaves input and output to
//! its driver ([`machine`]), and it is shown to agree with the direct,
//! treeless reading of programs whose loops are not nested ([`flat`]).
//! [`pipeline`] runs the three stages in a row.

pub mod lexer;
pub mod memory;
pub mod parser;
pub mod balance;
pub mod semantics;
pub mod interp;
pub mod machine;
pub mod flat;
pub mod pipeline;
