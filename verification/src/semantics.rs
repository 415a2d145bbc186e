//! What a program means: the state a run acts on, the effect of each
//! instruction, and the outcome of a metered run.
//!
//! A program may run forever, but a verified function has to return. So a
//! run is metered: every atomic instruction and every test of a loop
//! condition costs one unit of budget, and a run that has no unit left for
//! its next step stops where it is. A run that ends within its budget ends
//! the same way with any larger one.
//!
//! Cells are 32-bit signed integers; increment and decrement wrap around.

use vstd::prelude::*;
use crate::memory::Tape;
use crate::parser::Node;

verus! {


/// Character emitted for a cell that holds no Unicode scalar value.
pub const FALLBACK: char = '?';

/// Whether `value` is a Unicode scalar value.
pub open spec fn is_scalar(value: int) -> bool {
    0 <= value <= 0xD7FF || 0xE000 <= value <= 0x10FFFF
}

/// The character that a cell value is written as.
pub open spec fn output_char(value: i32) -> char {
    if is_scalar(value as int) {
        value as char
    } else {
        FALLBACK
    }
}

/// The cell value after an increment.
pub open spec fn incremented(value: i32) -> i32 {
    if value == i32::MAX {
        i32::MIN
    } else {
        (value + 1) as i32
    }
}

/// The cell value after a decrement.
pub open spec fn decremented(value: i32) -> i32 {
    if value == i32::MIN {
        i32::MAX
    } else {
        (value - 1) as i32
    }
}

/// Everything a run can observe or change.
pub struct State {
    /// The tape and its pointer.
    pub tape: Tape,
    /// The input bytes not yet read.
    pub input: Seq<u8>,
    /// The characters written so far.
    pub output: Seq<char>,
}

/// The tape after an instruction that acts on the tape alone; the other
/// instructions leave the tape as it is.
pub open spec fn tape_after(tape: Tape, node: Node) -> Tape {
    match node {
        Node::Plus => tape.write(incremented(tape.current())),
        Node::Moins => tape.write(decremented(tape.current())),
        Node::Droite => tape.move_right(),
        Node::Gauche => tape.move_left(),
        _ => tape,
    }
}

impl State {
    /// The state after one atomic instruction. (A loop is no atomic
    /// instruction and leaves the state as it is.)
    ///
    /// Output writes the current cell as a character. Input stores the next
    /// input byte in the current cell and takes it off the input; at the end
    /// of the input it does nothing.
    pub open spec fn step(self, node: Node) -> State {
        match node {
            Node::Afficher => State {
                output: self.output.push(output_char(self.tape.current())),
                ..self
            },
            Node::Lire => if self.input.len() > 0 {
                State {
                    tape: self.tape.write(self.input[0] as i32),
                    input: self.input.drop_first(),
                    ..self
                }
            } else {
                self
            },
            _ => State { tape: tape_after(self.tape, node), ..self },
        }
    }
}

/// How a metered run ends.
pub enum Outcome {
    /// The program ran to its end, with `budget` units unspent.
    Done { state: State, budget: nat },
    /// The budget ran out before the step that `state` was waiting for.
    Exhausted { state: State },
}

/// The outcome of running `program` from `state` with `budget` units.
pub open spec fn run(program: Seq<Node>, state: State, budget: nat) -> Outcome
    decreases budget,
{
    if program.len() == 0 {
        Outcome::Done { state, budget }
    } else if budget == 0 {
        Outcome::Exhausted { state }
    } else {
        match program[0] {
            Node::Boucle(body) => {
                if state.tape.current() == 0 {
                    run(program.drop_first(), state, (budget - 1) as nat)
                } else {
                    match run(body, state, (budget - 1) as nat) {
                        Outcome::Done { state: after, budget: left } => {
                            if left < budget {
                                run(program, after, left)
                            } else {
                                Outcome::Exhausted { state: after }
                            }
                        },
                        Outcome::Exhausted { state: after } => Outcome::Exhausted { state: after },
                    }
                }
            },
            node => run(program.drop_first(), state.step(node), (budget - 1) as nat),
        }
    }
}

/// A run never ends with more budget than it started with.
pub proof fn lemma_run_budget(program: Seq<Node>, state: State, budget: nat)
    ensures
        run(program, state, budget) matches Outcome::Done { budget: left, .. } ==> left <= budget,
    decreases budget,
{
    if program.len() > 0 && budget > 0 {
        match program[0] {
            Node::Boucle(body) => {
                if state.tape.current() == 0 {
                    lemma_run_budget(program.drop_first(), state, (budget - 1) as nat);
                } else {
                    lemma_run_budget(body, state, (budget - 1) as nat);
                    match run(body, state, (budget - 1) as nat) {
                        Outcome::Done { state: after, budget: left } => {
                            lemma_run_budget(program, after, left);
                        },
                        Outcome::Exhausted { .. } => {},
                    }
                }
            },
            node => {
                lemma_run_budget(program.drop_first(), state.step(node), (budget - 1) as nat);
            },
        }
    }
}

/// The state in which a run ends, whichever way it ends.
pub open spec fn final_state(outcome: Outcome) -> State {
    match outcome {
        Outcome::Done { state, .. } => state,
        Outcome::Exhausted { state } => state,
    }
}

/// A run keeps the pointer on the tape, never shortens the tape, reads the
/// input from the front only and only appends to the output.
pub proof fn lemma_run_keeps_state(program: Seq<Node>, state: State, budget: nat)
    requires
        state.tape.well_formed(),
    ensures
        final_state(run(program, state, budget)).tape.well_formed(),
        final_state(run(program, state, budget)).tape.cells.len() >= state.tape.cells.len(),
        final_state(run(program, state, budget)).input.is_suffix_of(state.input),
        state.output.is_prefix_of(final_state(run(program, state, budget)).output),
    decreases budget,
{
    if program.len() > 0 && budget > 0 {
        match program[0] {
            Node::Boucle(body) => {
                if state.tape.current() == 0 {
                    lemma_run_keeps_state(program.drop_first(), state, (budget - 1) as nat);
                } else {
                    lemma_run_keeps_state(body, state, (budget - 1) as nat);
                    match run(body, state, (budget - 1) as nat) {
                        Outcome::Done { state: after, budget: left } => {
                            if left < budget {
                                lemma_run_keeps_state(program, after, left);
                                let end = final_state(run(program, after, left));
                                lemma_suffix_chain(end.input, after.input, state.input);
                            }
                        },
                        Outcome::Exhausted { .. } => {},
                    }
                }
            },
            node => {
                let next = state.step(node);
                lemma_run_keeps_state(program.drop_first(), next, (budget - 1) as nat);
                let end = final_state(run(program.drop_first(), next, (budget - 1) as nat));
                lemma_suffix_chain(end.input, next.input, state.input);
            },
        }
    }
}

proof fn lemma_suffix_chain(a: Seq<u8>, b: Seq<u8>, c: Seq<u8>)
    requires
        a.is_suffix_of(b),
        b.is_suffix_of(c),
    ensures
        a.is_suffix_of(c),
{
}

/// Running one program after another is running their concatenation.
pub proof fn lemma_run_append(first: Seq<Node>, second: Seq<Node>, state: State, budget: nat)
    ensures
        run(first + second, state, budget) == match run(first, state, budget) {
            Outcome::Done { state: after, budget: left } => run(second, after, left),
            Outcome::Exhausted { state: after } => Outcome::Exhausted { state: after },
        },
    decreases budget,
{
    if first.len() > 0 && budget > 0 {
        assert((first + second).drop_first() =~= first.drop_first() + second);
        match first[0] {
            Node::Boucle(body) => {
                if state.tape.current() == 0 {
                    lemma_run_append(first.drop_first(), second, state, (budget - 1) as nat);
                } else {
                    match run(body, state, (budget - 1) as nat) {
                        Outcome::Done { state: after, budget: left } => {
                            if left < budget {
                                lemma_run_append(first, second, after, left);
                            }
                        },
                        Outcome::Exhausted { .. } => {},
                    }
                }
            },
            node => {
                lemma_run_append(
                    first.drop_first(),
                    second,
                    state.step(node),
                    (budget - 1) as nat,
                );
            },
        }
    }
}

/// A run that ends within its budget ends in the same state with any larger
/// budget, and leaves the surplus unspent.
pub proof fn lemma_run_more_budget(program: Seq<Node>, state: State, budget: nat, extra: nat)
    ensures
        run(program, state, budget) matches Outcome::Done { state: after, budget: left } ==> run(
            program,
            state,
            budget + extra,
        ) == (Outcome::Done { state: after, budget: left + extra }),
    decreases budget,
{
    if program.len() > 0 && budget > 0 {
        match program[0] {
            Node::Boucle(body) => {
                if state.tape.current() == 0 {
                    lemma_run_more_budget(program.drop_first(), state, (budget - 1) as nat, extra);
                } else {
                    lemma_run_more_budget(body, state, (budget - 1) as nat, extra);
                    lemma_run_budget(body, state, (budget - 1) as nat);
                    match run(body, state, (budget - 1) as nat) {
                        Outcome::Done { state: after, budget: left } => {
                            lemma_run_more_budget(program, after, left, extra);
                        },
                        Outcome::Exhausted { .. } => {},
                    }
                }
            },
            node => {
                lemma_run_more_budget(
                    program.drop_first(),
                    state.step(node),
                    (budget - 1) as nat,
                    extra,
                );
            },
        }
    }
}

/// The 32-bit signed value that an integer wraps around to.
pub open spec fn wrap(value: int) -> i32 {
    ((value + 0x8000_0000) % 0x1_0000_0000 - 0x8000_0000) as i32
}

/// Incrementing and decrementing a cell is adding and subtracting one,
/// wrapped around to 32 bits; a value in range is its own wrapped value.
pub proof fn lemma_wrap(value: int)
    ensures
        incremented(wrap(value)) == wrap(value + 1),
        decremented(wrap(value)) == wrap(value - 1),
        i32::MIN <= value <= i32::MAX ==> wrap(value) == value,
{
}

/// `n` increments in a row.
pub open spec fn increments(n: nat) -> Seq<Node> {
    Seq::new(n, |i: int| Node::Plus)
}

/// `n` increments cost `n` units and add `n` to the current cell, wrapping
/// around; nothing else changes.
pub proof fn lemma_run_increments(n: nat, state: State, budget: nat)
    requires
        state.tape.well_formed(),
        budget >= n,
    ensures
        run(increments(n), state, budget) == (Outcome::Done {
            state: State { tape: state.tape.write(wrap(state.tape.current() + n)), ..state },
            budget: (budget - n) as nat,
        }),
    decreases n,
{
    let value = state.tape.current();
    lemma_wrap(value as int);
    if n == 0 {
        assert(state.tape.write(value).cells =~= state.tape.cells);
    } else {
        let next = state.step(Node::Plus);
        assert(increments(n).drop_first() =~= increments((n - 1) as nat));
        lemma_run_increments((n - 1) as nat, next, (budget - 1) as nat);
        assert(next.tape.write(wrap(value + n)).cells =~= state.tape.write(wrap(value + n)).cells);
    }
}

/// How often the body of a loop is entered when the loop is run from
/// `state` with `budget` units.
pub open spec fn iterations(body: Seq<Node>, state: State, budget: nat) -> nat
    decreases budget,
{
    if budget == 0 || state.tape.current() == 0 {
        0
    } else {
        match run(body, state, (budget - 1) as nat) {
            Outcome::Done { state: after, budget: left } => {
                if left < budget {
                    1 + iterations(body, after, left)
                } else {
                    1
                }
            },
            Outcome::Exhausted { .. } => 1,
        }
    }
}

/// The loop whose body is a single decrement.
pub open spec fn clear_loop() -> Seq<Node> {
    seq![Node::Boucle(seq![Node::Moins])]
}

/// Run on a cell that holds `v >= 0`, the clearing loop enters its body
/// exactly `v` times and leaves the cell at 0 and everything else as it was.
/// It costs one unit for each of the `v + 1` tests and one for each of the
/// `v` decrements; with less budget than that it does not finish.
pub proof fn lemma_clear_loop(state: State, budget: nat)
    requires
        state.tape.well_formed(),
        state.tape.current() >= 0,
    ensures
        budget > 2 * state.tape.current() ==> run(clear_loop(), state, budget) == (Outcome::Done {
            state: State { tape: state.tape.write(0), ..state },
            budget: (budget - 2 * state.tape.current() - 1) as nat,
        }) && iterations(seq![Node::Moins], state, budget) == state.tape.current(),
        budget <= 2 * state.tape.current() ==> run(clear_loop(), state, budget) is Exhausted,
    decreases state.tape.current(),
{
    let value = state.tape.current();
    let body = seq![Node::Moins];
    let program = clear_loop();
    if budget > 0 && value == 0 {
        // One test, and the loop is over.
        assert(state.tape.write(0).cells =~= state.tape.cells);
        assert(run(program.drop_first(), state, (budget - 1) as nat) == Outcome::Done {
            state,
            budget: (budget - 1) as nat,
        });
    } else if budget > 1 {
        // One test and one decrement, and the loop starts again on `v - 1`.
        let next = state.step(Node::Moins);
        let left = (budget - 2) as nat;
        assert(run(body.drop_first(), next, left) == Outcome::Done { state: next, budget: left });
        assert(run(body, state, (budget - 1) as nat) == Outcome::Done {
            state: next,
            budget: left,
        });
        lemma_clear_loop(next, left);
        assert(next.tape.write(0).cells =~= state.tape.write(0).cells);
    }
}

} // verus!
