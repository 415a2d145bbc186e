//! Tree-walking evaluator: runs an instruction tree against a memory, with
//! the input given as bytes and the output collected as characters.

use vstd::prelude::*;
use crate::memory::Memoire;
use crate::parser::{forest, lemma_node_of_loop, Instruction, Node};
use crate::semantics::{
    is_scalar, lemma_run_budget, lemma_run_keeps_state, output_char, run, Outcome, State, FALLBACK,
};

verus! {

/// The two ends of a run that are not on the tape: the bytes it may read
/// and the characters it has written.
#[derive(Debug)]
pub struct Streams {
    /// All input bytes, read or not.
    pub input: Vec<u8>,
    /// How many input bytes have been read.
    pub consumed: usize,
    /// The characters written so far.
    pub output: Vec<char>,
}

impl Streams {
    /// No more bytes are marked read than there are.
    pub open spec fn well_formed(&self) -> bool {
        self.consumed <= self.input@.len()
    }

    /// The input bytes not yet read.
    pub open spec fn pending(&self) -> Seq<u8> {
        self.input@.skip(self.consumed as int)
    }

    /// Whether no more bytes are marked read than there are.
    pub fn is_well_formed(&self) -> (ok: bool)
        ensures
            ok == self.well_formed(),
    {
        self.consumed <= self.input.len()
    }

    /// Streams over the given input, none of it read, nothing written.
    pub fn new(input: Vec<u8>) -> (streams: Streams)
        ensures
            streams.well_formed(),
            streams.pending() == input@,
            streams.input@ == input@,
            streams.consumed == 0,
            streams.output@ == Seq::<char>::empty(),
    {
        let streams = Streams { input, consumed: 0, output: Vec::new() };
        streams
    }

    /// Takes the next input byte, if one is left.
    pub fn read_byte(&mut self) -> (byte: Option<u8>)
        requires
            old(self).well_formed(),
        ensures
            final(self).well_formed(),
            final(self).output == old(self).output,
            final(self).input == old(self).input,
            old(self).pending().len() > 0 ==> byte == Some(old(self).pending()[0])
                && final(self).pending() == old(self).pending().drop_first(),
            old(self).pending().len() == 0 ==> byte is None,
            old(self).pending().len() == 0 ==> final(self).pending() == old(self).pending(),
    {
        if self.consumed < self.input.len() {
            let byte = self.input[self.consumed];
            self.consumed += 1;
            Some(byte)
        } else {
            None
        }
    }

    /// Writes one character.
    pub fn emit(&mut self, c: char)
        ensures
            final(self).output@ == old(self).output@.push(c),
            final(self).input == old(self).input,
            final(self).consumed == old(self).consumed,
    {
        self.output.push(c);
    }
}

/// The state that a memory and its streams stand for.
pub open spec fn state_of(memoire: &Memoire, streams: &Streams) -> State {
    State { tape: memoire@, input: streams.pending(), output: streams.output@ }
}

/// Assumed of the standard library's `char::from_u32`, not proved: it yields
/// the character with the given scalar value, and nothing for a number that
/// is no Unicode scalar value (one above 0x10FFFF, or a surrogate in
/// 0xD800..=0xDFFF).
pub assume_specification[ char::from_u32 ](i: u32) -> (c: Option<char>)
    ensures
        c == if is_scalar(i as int) {
            Some(i as char)
        } else {
            None::<char>
        },
;

/// The character to write for a cell value: the character with that scalar
/// value, or the fallback where there is none.
pub fn cell_to_char(value: i32) -> (c: char)
    ensures
        c == output_char(value),
{
    if value < 0 {
        FALLBACK
    } else {
        match char::from_u32(value as u32) {
            Some(c) => c,
            None => FALLBACK,
        }
    }
}

/// Streams over the same input, of which one has no more left to read
/// than the other, have read at least as much.
proof fn lemma_suffix_consumed(before: &Streams, after: &Streams)
    requires
        before.well_formed(),
        after.well_formed(),
        before.input@ == after.input@,
        after.pending().is_suffix_of(before.pending()),
    ensures
        after.consumed >= before.consumed,
{
}

/// Whether a run that returned `left` and left `state` behind ended as
/// `outcome` says: in that state, and with that budget left if it left any.
pub open spec fn reached(outcome: Outcome, left: Option<u64>, state: State) -> bool {
    match outcome {
        Outcome::Done { state: after, budget } => left == Some(budget as u64) && budget
            <= u64::MAX && state == after,
        Outcome::Exhausted { state: after } => left is None && state == after,
    }
}

/// Runs `instructions` against the memory and the streams, spending at most
/// `budget` steps. Returns the budget left over when the program ran to its
/// end, and `None` when the budget ran out first; either way the memory and
/// the streams are left as the run left them.
pub fn interpreteur(
    memoire: &mut Memoire,
    instructions: &Vec<Instruction>,
    streams: &mut Streams,
    budget: u64,
) -> (left: Option<u64>)
    requires
        old(memoire)@.well_formed(),
        old(streams).well_formed(),
    ensures
        final(memoire)@.well_formed(),
        final(streams).well_formed(),
        final(streams).input@ == old(streams).input@,
        final(streams).consumed >= old(streams).consumed,
        old(streams).output@.is_prefix_of(final(streams).output@),
        final(memoire)@.cells.len() >= old(memoire)@.cells.len(),
        reached(
            run(forest(instructions@), state_of(old(memoire), old(streams)), budget as nat),
            left,
            state_of(final(memoire), final(streams)),
        ),
    decreases budget,
{
    let ghost program = forest(instructions@);
    let ghost start = state_of(memoire, streams);
    let mut remaining: u64 = budget;
    let mut i: usize = 0;
    assert(program.skip(0) =~= program);
    while i < instructions.len()
        invariant
            program == forest(instructions@),
            start == state_of(old(memoire), old(streams)),
            old(memoire)@.well_formed(),
            old(streams).well_formed(),
            i <= instructions@.len(),
            remaining <= budget,
            memoire@.well_formed(),
            streams.well_formed(),
            streams.input@ == old(streams).input@,
            run(program, start, budget as nat) == run(
                program.skip(i as int),
                state_of(memoire, streams),
                remaining as nat,
            ),
        decreases instructions@.len() - i,
    {
        let ghost rest = program.skip(i as int);
        assert(rest.drop_first() =~= program.skip(i + 1));
        if remaining == 0 {
            proof {
                lemma_run_keeps_state(program, start, budget as nat);
                lemma_suffix_consumed(old(streams), streams);
            }
            return None;
        }
        match &instructions[i] {
            Instruction::Plus => {
                remaining -= 1;
                let value = memoire.read();
                memoire.write(value.wrapping_add(1));
            },
            Instruction::Moins => {
                remaining -= 1;
                let value = memoire.read();
                memoire.write(value.wrapping_sub(1));
            },
            Instruction::Droite => {
                remaining -= 1;
                memoire.move_right();
            },
            Instruction::Gauche => {
                remaining -= 1;
                memoire.move_left();
            },
            Instruction::Afficher => {
                remaining -= 1;
                let value = memoire.read();
                streams.emit(cell_to_char(value));
            },
            Instruction::Lire => {
                remaining -= 1;
                match streams.read_byte() {
                    Some(byte) => {
                        memoire.write(byte as i32);
                    },
                    None => {},
                }
            },
            Instruction::Boucle(body) => {
                proof {
                    lemma_node_of_loop(*body);
                }
                loop
                    invariant_except_break
                        run(program, start, budget as nat) == run(
                            rest,
                            state_of(memoire, streams),
                            remaining as nat,
                        ),
                    invariant
                        program == forest(instructions@),
                        start == state_of(old(memoire), old(streams)),
                        old(memoire)@.well_formed(),
                        old(streams).well_formed(),
                        i < instructions@.len(),
                        rest == program.skip(i as int),
                        rest.len() > 0,
                        rest.drop_first() == program.skip(i + 1),
                        rest[0] == Node::Boucle(forest(body@)),
                        remaining <= budget,
                        memoire@.well_formed(),
                        streams.well_formed(),
                        streams.input@ == old(streams).input@,
                    ensures
                        remaining <= budget,
                        memoire@.well_formed(),
                        streams.well_formed(),
                        streams.input@ == old(streams).input@,
                        run(program, start, budget as nat) == run(
                            program.skip(i + 1),
                            state_of(memoire, streams),
                            remaining as nat,
                        ),
                    decreases remaining,
                {
                    if remaining == 0 {
                        proof {
                            lemma_run_keeps_state(program, start, budget as nat);
                            lemma_suffix_consumed(old(streams), streams);
                        }
                        return None;
                    }
                    remaining -= 1;
                    if memoire.read() == 0 {
                        break ;
                    }
                    proof {
                        lemma_run_budget(
                            forest(body@),
                            state_of(memoire, streams),
                            remaining as nat,
                        );
                    }
                    match interpreteur(memoire, body, streams, remaining) {
                        Some(left) => {
                            remaining = left;
                        },
                        None => {
                            proof {
                                lemma_run_keeps_state(program, start, budget as nat);
                                lemma_suffix_consumed(old(streams), streams);
                            }
                            return None;
                        },
                    }
                }
            },
        }
        i += 1;
    }
    proof {
        lemma_run_keeps_state(program, start, budget as nat);
        lemma_suffix_consumed(old(streams), streams);
    }
    Some(remaining)
}

} // verus!
