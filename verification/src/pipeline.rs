//! The three stages in a row: filter the text, parse the opcodes, evaluate
//! the tree on a fresh tape.

use vstd::prelude::*;
use crate::balance::{atoms, lemma_parse_atoms};
use crate::interp::{interpreteur, reached, state_of, Streams};
use crate::semantics::{
    increments, lemma_run_append, lemma_run_increments, lemma_wrap, output_char, run, wrap,
    Outcome, State,
};
use crate::lexer::{convert_to_op, is_command, lemma_lex_push, lex, OperCharac};
use crate::memory::{new_empty_memory, Memoire, Tape, INITIAL_CELLS};
use crate::parser::{convert_to_instruction, parse, Node, StructuralError};

verus! {

/// The state in which every program starts: a fresh tape, all of the input
/// unread, nothing written.
pub open spec fn initial_state(input: Seq<u8>) -> State {
    State { tape: Tape::blank(INITIAL_CELLS as nat), input, output: Seq::empty() }
}

/// What a run leaves behind.
#[derive(Debug)]
pub struct Execution {
    /// The tape as the run left it.
    pub memoire: Memoire,
    /// The input, with what was read of it, and the output.
    pub streams: Streams,
    /// The budget left over, or `None` if it ran out before the program ended.
    pub left: Option<u64>,
}

/// Runs a source text on the given input with at most `budget` steps.
///
/// The text is parsed in full first: if it holds a `]` that closes nothing,
/// nothing is run and the error names the opcode at fault. Otherwise the
/// program runs from the initial state, and the result is what that run
/// leaves behind.
pub fn execute(source: String, input: Vec<u8>, budget: u64) -> (result: Result<
    Execution,
    StructuralError,
>)
    ensures
        match parse(lex(source@)) {
            Err(position) => result matches Err(error) && error.position == position,
            Ok(program) => {
                &&& result matches Ok(execution)
                &&& execution.memoire@.well_formed()
                &&& execution.streams.well_formed()
                &&& execution.streams.input@ == input@
                &&& reached(
                    run(program, initial_state(input@), budget as nat),
                    execution.left,
                    state_of(&execution.memoire, &execution.streams),
                )
            },
        },
{
    let opcodes = convert_to_op(source);
    match convert_to_instruction(opcodes) {
        Err(error) => Err(error),
        Ok(program) => {
            let mut memoire = new_empty_memory();
            let mut streams = Streams::new(input);
            let left = interpreteur(&mut memoire, &program, &mut streams, budget);
            Ok(Execution { memoire, streams, left })
        },
    }
}

/// The text of `n` times `+` and then one `.`.
pub open spec fn counting_text(n: nat) -> Seq<char> {
    Seq::new(n, |i: int| '+').push('.')
}

proof fn lemma_lex_pluses(n: nat)
    ensures
        lex(Seq::new(n, |i: int| '+')) == Seq::new(n, |i: int| OperCharac::Plus),
    decreases n,
{
    let text = Seq::new(n, |i: int| '+');
    if n == 0 {
        assert(text.filter(|c: char| is_command(c)) =~= Seq::<char>::empty()) by {
            reveal(Seq::filter);
        }
    } else {
        let shorter = Seq::new((n - 1) as nat, |i: int| '+');
        lemma_lex_pluses((n - 1) as nat);
        lemma_lex_push(shorter, '+');
        assert(text =~= shorter.push('+'));
    }
}

/// The program of `n` times `+` and then one `.`, run from the initial state
/// with more than `n` units, writes exactly one character: the one for the
/// value that `n` increments leave in a cell, which is `n` itself as long as
/// `n` fits in a cell. The tape holds that value in cell 0 and the input is
/// untouched.
pub proof fn lemma_counting_program(n: nat, input: Seq<u8>, budget: nat)
    requires
        budget > n,
    ensures
        parse(lex(counting_text(n))) matches Ok(program) && run(
            program,
            initial_state(input),
            budget,
        ) == (Outcome::Done {
            state: State {
                tape: Tape::blank(INITIAL_CELLS as nat).write(wrap(n as int)),
                input,
                output: seq![output_char(wrap(n as int))],
            },
            budget: (budget - n - 1) as nat,
        }),
        n <= i32::MAX ==> wrap(n as int) == n,
{
    let pluses = Seq::new(n, |i: int| '+');
    let ops = Seq::new(n, |i: int| OperCharac::Plus).push(OperCharac::Point);
    lemma_lex_pluses(n);
    lemma_lex_push(pluses, '.');
    lemma_parse_atoms(ops, 0, n as int + 1);
    let program = increments(n) + seq![Node::Afficher];
    assert(atoms(ops, 0, n as int + 1) =~= program);
    let start = initial_state(input);
    lemma_run_append(increments(n), seq![Node::Afficher], start, budget);
    lemma_run_increments(n, start, budget);
    lemma_wrap(n as int);
    let counted = State { tape: start.tape.write(wrap(n as int)), ..start };
    let left = (budget - n) as nat;
    let written = counted.step(Node::Afficher);
    assert(run(seq![Node::Afficher].drop_first(), written, (left - 1) as nat) == Outcome::Done {
        state: written,
        budget: (left - 1) as nat,
    });
}

} // verus!
