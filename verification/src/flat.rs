//! Direct interpretation of the opcode sequence, without a tree, and its
//! agreement with the tree-walking evaluator.
//!
//! The flat interpreter keeps a position in the opcode sequence. A `[` on a
//! zero cell jumps behind the next `]`; a `]` on a non-zero cell jumps back
//! behind the nearest `[` before it. That is what loops mean as long as no
//! loop stands inside another.

use vstd::prelude::*;
use crate::balance::{
    atoms, delta, lemma_find_close_depth, lemma_net_split, lemma_parse_atoms,
    lemma_parse_range_balance, net,
};
use crate::semantics::{lemma_run_budget, run, Outcome, State};
use crate::lexer::OperCharac;
use crate::parser::{atom, find_close, parse, parse_range, Node};

verus! {

/// Index of the first `]` at or after `from`; the length of `ops` if there is none.
pub open spec fn next_close(ops: Seq<OperCharac>, from: int) -> int
    decreases ops.len() - from,
{
    if from >= ops.len() {
        ops.len() as int
    } else if ops[from] == OperCharac::CrochetFerme {
        from
    } else {
        next_close(ops, from + 1)
    }
}

/// Index of the last `[` before `before`; -1 if there is none.
pub open spec fn previous_open(ops: Seq<OperCharac>, before: int) -> int
    decreases before,
{
    if before <= 0 {
        -1
    } else if ops[before - 1] == OperCharac::CrochetOuvert {
        before - 1
    } else {
        previous_open(ops, before - 1)
    }
}

/// The outcome of interpreting `ops` directly from position `pc`, with the
/// same metering as the tree-walking evaluator: one unit for each atomic
/// opcode and one for each test of a cell at a bracket.
pub open spec fn flat_run(ops: Seq<OperCharac>, pc: int, state: State, budget: nat) -> Outcome
    decreases budget,
{
    if pc < 0 || pc >= ops.len() {
        Outcome::Done { state, budget }
    } else if budget == 0 {
        Outcome::Exhausted { state }
    } else if ops[pc] == OperCharac::CrochetOuvert {
        if state.tape.current() == 0 {
            flat_run(ops, next_close(ops, pc) + 1, state, (budget - 1) as nat)
        } else {
            flat_run(ops, pc + 1, state, (budget - 1) as nat)
        }
    } else if ops[pc] == OperCharac::CrochetFerme {
        if state.tape.current() != 0 {
            flat_run(ops, previous_open(ops, pc) + 1, state, (budget - 1) as nat)
        } else {
            flat_run(ops, pc + 1, state, (budget - 1) as nat)
        }
    } else {
        flat_run(ops, pc + 1, state.step(atom(ops[pc])->0), (budget - 1) as nat)
    }
}

/// Every `[` has its `]`, no `]` comes without a `[`, and no loop stands
/// inside another: the depth is 0 or 1 everywhere, and 0 at the end.
pub open spec fn flat_brackets(ops: Seq<OperCharac>) -> bool {
    &&& forall|k: int| 0 <= k <= ops.len() ==> 0 <= #[trigger] net(ops, 0, k) <= 1
    &&& net(ops, 0, ops.len() as int) == 0
}

proof fn lemma_next_close(ops: Seq<OperCharac>, from: int, close: int)
    requires
        0 <= from <= close < ops.len(),
        ops[close] == OperCharac::CrochetFerme,
        forall|k: int| from <= k < close ==> #[trigger] ops[k] != OperCharac::CrochetFerme,
    ensures
        next_close(ops, from) == close,
    decreases close - from,
{
    if from < close {
        lemma_next_close(ops, from + 1, close);
    }
}

proof fn lemma_previous_open(ops: Seq<OperCharac>, open: int, before: int)
    requires
        0 <= open < before <= ops.len(),
        ops[open] == OperCharac::CrochetOuvert,
        forall|k: int| open < k < before ==> #[trigger] ops[k] != OperCharac::CrochetOuvert,
    ensures
        previous_open(ops, before) == open,
    decreases before - open,
{
    if open + 1 < before {
        lemma_previous_open(ops, open, before - 1);
    }
}

/// Across a stretch without brackets the flat interpreter does what the
/// evaluator does on the leaves of that stretch.
proof fn lemma_flat_stretch(ops: Seq<OperCharac>, from: int, to: int, state: State, budget: nat)
    requires
        0 <= from <= to <= ops.len(),
        forall|k: int| from <= k < to ==> atom(#[trigger] ops[k]) is Some,
    ensures
        flat_run(ops, from, state, budget) == match run(atoms(ops, from, to), state, budget) {
            Outcome::Done { state: after, budget: left } => flat_run(ops, to, after, left),
            Outcome::Exhausted { state: after } => Outcome::Exhausted { state: after },
        },
    decreases to - from,
{
    let leaves = atoms(ops, from, to);
    if from < to {
        assert(leaves.drop_first() =~= atoms(ops, from + 1, to));
        if budget > 0 {
            lemma_flat_stretch(
                ops,
                from + 1,
                to,
                state.step(atom(ops[from])->0),
                (budget - 1) as nat,
            );
        }
    }
}

/// Where the depth is 0 in a sequence with flat brackets, what follows is
/// an atomic opcode or a loop of atomic opcodes.
proof fn lemma_flat_shape(ops: Seq<OperCharac>, pc: int)
    requires
        flat_brackets(ops),
        0 <= pc < ops.len(),
        net(ops, 0, pc) == 0,
    ensures
        ops[pc] != OperCharac::CrochetFerme,
        net(ops, 0, pc + 1) == 0 <==> ops[pc] != OperCharac::CrochetOuvert,
        ops[pc] == OperCharac::CrochetOuvert ==> {
            &&& find_close(ops, pc + 1, ops.len() as int, 1) matches Some(close)
            &&& pc < close < ops.len()
            &&& ops[close] == OperCharac::CrochetFerme
            &&& net(ops, 0, close + 1) == 0
            &&& forall|k: int| pc < k < close ==> atom(#[trigger] ops[k]) is Some
        },
{
    let length = ops.len() as int;
    assert(net(ops, 0, pc + 1) == net(ops, 0, pc) + delta(ops[pc]));
    if ops[pc] == OperCharac::CrochetOuvert {
        lemma_find_close_depth(ops, pc + 1, length, 1);
        assert forall|k: int| pc + 1 <= k <= length implies net(ops, 0, k) == 1 + net(
            ops,
            pc + 1,
            k,
        ) by {
            lemma_net_split(ops, 0, pc + 1, k);
        }
        if let Some(close) = find_close(ops, pc + 1, length, 1) {
            // Between the brackets the depth is 1: a bracket there would
            // take it to 2 or back to 0.
            assert forall|k: int| pc < k < close implies atom(#[trigger] ops[k]) is Some by {
                assert(net(ops, 0, k + 1) == net(ops, 0, k) + delta(ops[k]));
            }
        }
    }
}

/// From a position at depth 0, the evaluator on the parsed rest of the
/// sequence and the flat interpreter end alike.
proof fn lemma_tree_equals_flat_from(ops: Seq<OperCharac>, pc: int, state: State, budget: nat)
    requires
        flat_brackets(ops),
        0 <= pc <= ops.len(),
        net(ops, 0, pc) == 0,
    ensures
        parse_range(ops, pc, ops.len() as int) matches Ok(program) && run(program, state, budget)
            == flat_run(ops, pc, state, budget),
    decreases budget, ops.len() - pc,
{
    let length = ops.len() as int;
    // With no `]` at depth 0 behind `pc`, the rest parses.
    lemma_parse_range_balance(ops, pc, length);
    if let Err(position) = parse_range(ops, pc, length) {
        lemma_net_split(ops, 0, pc, position);
    }
    let program = parse_range(ops, pc, length)->Ok_0;
    if pc < length {
        lemma_flat_shape(ops, pc);
        if ops[pc] == OperCharac::CrochetOuvert {
            // A loop of atomic opcodes, from `pc` to `close`.
            let close = find_close(ops, pc + 1, length, 1)->0;
            let body = atoms(ops, pc + 1, close);
            lemma_parse_atoms(ops, pc + 1, close);
            lemma_tree_equals_flat_from(ops, close + 1, state, 0);
            let rest = parse_range(ops, close + 1, length)->Ok_0;
            assert(program.drop_first() =~= rest);
            lemma_next_close(ops, pc, close);
            lemma_previous_open(ops, pc, close);
            if budget > 0 {
                if state.tape.current() == 0 {
                    lemma_tree_equals_flat_from(ops, close + 1, state, (budget - 1) as nat);
                } else {
                    // Both run the body, and then test the cell again: the
                    // evaluator at the loop, the flat interpreter at the
                    // `]`, where it goes on as it would from the `[`.
                    lemma_flat_stretch(ops, pc + 1, close, state, (budget - 1) as nat);
                    lemma_run_budget(body, state, (budget - 1) as nat);
                    if let Outcome::Done { state: after, budget: left } = run(
                        body,
                        state,
                        (budget - 1) as nat,
                    ) {
                        lemma_tree_equals_flat_from(ops, pc, after, left);
                        if left > 0 && after.tape.current() == 0 {
                            lemma_tree_equals_flat_from(ops, close + 1, after, (left - 1) as nat);
                        }
                    }
                }
            }
        } else {
            lemma_tree_equals_flat_from(ops, pc + 1, state, 0);
            let rest = parse_range(ops, pc + 1, length)->Ok_0;
            assert(program.drop_first() =~= rest);
            if budget > 0 {
                lemma_tree_equals_flat_from(
                    ops,
                    pc + 1,
                    state.step(atom(ops[pc])->0),
                    (budget - 1) as nat,
                );
            }
        }
    }
}

/// On an opcode sequence whose brackets are balanced and not nested, parsing
/// and then evaluating the tree ends exactly as interpreting the sequence
/// directly does: in the same state, with the same budget left or exhausted
/// at the same step.
pub proof fn lemma_tree_equals_flat(ops: Seq<OperCharac>, state: State, budget: nat)
    requires
        flat_brackets(ops),
    ensures
        parse(ops) matches Ok(program) && run(program, state, budget) == flat_run(
            ops,
            0,
            state,
            budget,
        ),
{
    lemma_tree_equals_flat_from(ops, 0, state, budget);
}

} // verus!
