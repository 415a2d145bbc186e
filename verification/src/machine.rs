//! The evaluator as a machine that is driven one step at a time.
//!
//! The machine does no input or output itself. Each step says what the
//! driver has to do: nothing, write a character, or read a byte and hand it
//! over. A run of the machine is the metered run of the program, one unit
//! per step, for whatever length the driver keeps stepping.

use vstd::prelude::*;
use crate::interp::cell_to_char;
use crate::semantics::{lemma_run_append, lemma_run_budget, output_char, run, tape_after, State};
use crate::memory::{Memoire, Tape};
use crate::parser::{forest, lemma_node_of_loop, Instruction, Node};

verus! {

/// What a step asks of the driver.
#[derive(Debug, Clone, Copy, PartialEq, Eq)]
pub enum Action {
    /// Nothing; step again.
    Continue,
    /// Write this character, then step again.
    Emit(char),
    /// Read one byte and supply it, or supply the end of the input.
    Read,
    /// The program has ended.
    Halt,
}

/// What the first step of `program` on `tape` asks of the driver.
pub open spec fn request(program: Seq<Node>, tape: Tape) -> Action {
    if program.len() == 0 {
        Action::Halt
    } else {
        match program[0] {
            Node::Afficher => Action::Emit(output_char(tape.current())),
            Node::Lire => Action::Read,
            _ => Action::Continue,
        }
    }
}

/// The program that is left after the first step of `program` on `tape`:
/// a loop on a non-zero cell puts its body in front of itself, anything
/// else is done with.
pub open spec fn after_step(program: Seq<Node>, tape: Tape) -> Seq<Node> {
    if program.len() == 0 {
        program
    } else {
        match program[0] {
            Node::Boucle(body) => if tape.current() != 0 {
                body + program
            } else {
                program.drop_first()
            },
            _ => program.drop_first(),
        }
    }
}

/// A step of the machine is the first step of the metered run: it costs one
/// unit and leaves the rest of the run to be done.
pub proof fn lemma_step_preserves_run(program: Seq<Node>, state: State, budget: nat)
    requires
        program.len() > 0,
        budget > 0,
    ensures
        run(program, state, budget) == run(
            after_step(program, state.tape),
            state.step(program[0]),
            (budget - 1) as nat,
        ),
{
    if let Node::Boucle(body) = program[0] {
        if state.tape.current() != 0 {
            lemma_run_append(body, program, state, (budget - 1) as nat);
            lemma_run_budget(body, state, (budget - 1) as nat);
        }
    }
}

/// A position in an instruction sequence that is being run.
#[derive(Debug)]
pub struct Frame<'a> {
    /// The sequence: the program, or the body of a loop.
    pub body: &'a Vec<Instruction>,
    /// Index of the next instruction to run.
    pub next: usize,
}

impl<'a> Frame<'a> {
    /// The position is within the sequence or at its end.
    pub open spec fn well_formed(&self) -> bool {
        self.next <= self.body@.len()
    }

    /// The instructions of this sequence that are still to run.
    pub open spec fn rest(&self) -> Seq<Node> {
        forest(self.body@).skip(self.next as int)
    }
}

/// What a stack of frames has still to run: the rest of the innermost
/// sequence, which is the last frame, then the rest of the one around it,
/// and so on outwards.
pub open spec fn remaining_of(frames: Seq<Frame>) -> Seq<Node>
    decreases frames.len(),
{
    if frames.len() == 0 {
        Seq::empty()
    } else {
        frames.last().rest() + remaining_of(frames.drop_last())
    }
}

/// The tape and the place in the program.
#[derive(Debug)]
pub struct Machine<'a> {
    /// The tape.
    pub memoire: Memoire,
    /// The sequences being run, outermost first. The frame of a loop that
    /// is being run points at that loop, so that its condition is tested
    /// again when the body is done.
    pub frames: Vec<Frame<'a>>,
}

impl<'a> Machine<'a> {
    /// The pointer is on the tape and every frame is within its sequence.
    pub open spec fn well_formed(&self) -> bool {
        &&& self.memoire@.well_formed()
        &&& forall|i: int|
            0 <= i < self.frames@.len() ==> (#[trigger] self.frames@[i]).well_formed()
    }

    /// The program that is still to run.
    pub open spec fn remaining(&self) -> Seq<Node> {
        remaining_of(self.frames@)
    }

    /// Whether the pointer is on the tape and every frame within its sequence.
    pub fn is_well_formed(&self) -> (ok: bool)
        ensures
            ok == self.well_formed(),
    {
        if !self.memoire.is_well_formed() {
            return false;
        }
        let mut i: usize = 0;
        while i < self.frames.len()
            invariant
                i <= self.frames@.len(),
                forall|k: int| 0 <= k < i ==> (#[trigger] self.frames@[k]).well_formed(),
            decreases self.frames@.len() - i,
        {
            if self.frames[i].next > self.frames[i].body.len() {
                return false;
            }
            i += 1;
        }
        true
    }

    /// A machine at the start of `program`, on the given memory. It is
    /// usable exactly when the memory is.
    pub fn new(program: &'a Vec<Instruction>, memoire: Memoire) -> (machine: Machine<'a>)
        ensures
            machine.well_formed() <==> memoire@.well_formed(),
            machine.remaining() == forest(program@),
            machine.memoire == memoire,
    {
        let mut frames: Vec<Frame<'a>> = Vec::new();
        frames.push(Frame { body: program, next: 0 });
        let machine = Machine { memoire, frames };
        assert(remaining_of(machine.frames@.drop_last()) =~= Seq::<Node>::empty());
        machine
    }

    /// Drops the frames that have nothing left to run.
    fn settle(&mut self)
        requires
            old(self).well_formed(),
        ensures
            final(self).well_formed(),
            final(self).memoire == old(self).memoire,
            final(self).remaining() == old(self).remaining(),
            final(self).frames@.len() > 0 ==> final(self).frames@.last().next
                < final(self).frames@.last().body@.len(),
            final(self).frames@.len() == 0 ==> final(self).remaining().len() == 0,
    {
        loop
            invariant_except_break
                self.well_formed(),
                self.memoire == old(self).memoire,
                self.remaining() == old(self).remaining(),
            ensures
                self.well_formed(),
                self.memoire == old(self).memoire,
                self.remaining() == old(self).remaining(),
                self.frames@.len() > 0 ==> self.frames@.last().next
                    < self.frames@.last().body@.len(),
                self.frames@.len() == 0 ==> self.remaining().len() == 0,
            decreases self.frames@.len(),
        {
            let depth = self.frames.len();
            if depth == 0 {
                break ;
            }
            if self.frames[depth - 1].next < self.frames[depth - 1].body.len() {
                break ;
            }
            self.frames.pop();
        }
    }

    /// Replaces the innermost frame's position by the one after it.
    fn advance(&mut self)
        requires
            old(self).well_formed(),
            old(self).frames@.len() > 0,
            old(self).frames@.last().next < old(self).frames@.last().body@.len(),
        ensures
            final(self).well_formed(),
            final(self).memoire == old(self).memoire,
            final(self).remaining() == old(self).remaining().drop_first(),
    {
        let ghost outer = self.frames@.drop_last();
        let frame = self.frames.pop().unwrap();
        assert(frame.next < frame.body.len());
        self.frames.push(Frame { body: frame.body, next: frame.next + 1 });
        assert(self.frames@.drop_last() =~= outer);
    }

    /// Takes one step, unless the step is to read a byte or the program has
    /// ended: then the machine stays as it is and says so.
    ///
    /// An atomic instruction is carried out on the tape. Output leaves the
    /// tape alone and hands the character to the driver. A loop is tested:
    /// on a non-zero cell its body comes next and the loop after it again,
    /// on a zero cell the loop is over.
    pub fn step(&mut self) -> (action: Action)
        requires
            old(self).well_formed(),
        ensures
            final(self).well_formed(),
            action == request(old(self).remaining(), old(self).memoire@),
            action is Read || action is Halt ==> final(self).remaining() == old(self).remaining()
                && final(self).memoire@ == old(self).memoire@,
            action is Continue || action is Emit ==> final(self).remaining() == after_step(
                old(self).remaining(),
                old(self).memoire@,
            ) && final(self).memoire@ == tape_after(old(self).memoire@, old(self).remaining()[0]),
    {
        self.settle();
        let depth = self.frames.len();
        if depth == 0 {
            return Action::Halt;
        }
        let body: &'a Vec<Instruction> = self.frames[depth - 1].body;
        let next = self.frames[depth - 1].next;
        match &body[next] {
            Instruction::Plus => {
                let value = self.memoire.read();
                self.memoire.write(value.wrapping_add(1));
                self.advance();
                Action::Continue
            },
            Instruction::Moins => {
                let value = self.memoire.read();
                self.memoire.write(value.wrapping_sub(1));
                self.advance();
                Action::Continue
            },
            Instruction::Droite => {
                self.memoire.move_right();
                self.advance();
                Action::Continue
            },
            Instruction::Gauche => {
                self.memoire.move_left();
                self.advance();
                Action::Continue
            },
            Instruction::Afficher => {
                let value = self.memoire.read();
                self.advance();
                Action::Emit(cell_to_char(value))
            },
            Instruction::Lire => Action::Read,
            Instruction::Boucle(inner) => {
                proof {
                    lemma_node_of_loop(*inner);
                }
                if self.memoire.read() != 0 {
                    let ghost outer = self.frames@;
                    self.frames.push(Frame { body: inner, next: 0 });
                    assert(self.frames@.drop_last() =~= outer);
                } else {
                    self.advance();
                }
                Action::Continue
            },
        }
    }

    /// Hands the machine the byte it asked for, or `None` at the end of the
    /// input. The byte goes into the current cell; at the end of the input
    /// the cell keeps its value. Either way the read is done with.
    ///
    /// A machine that is not waiting for a byte takes none: it stays as it
    /// is and returns `false`.
    pub fn supply(&mut self, byte: Option<u8>) -> (accepted: bool)
        requires
            old(self).well_formed(),
        ensures
            final(self).well_formed(),
            accepted <==> request(old(self).remaining(), old(self).memoire@) is Read,
            accepted ==> final(self).remaining() == old(self).remaining().drop_first(),
            accepted ==> final(self).memoire@ == match byte {
                Some(value) => old(self).memoire@.write(value as i32),
                None => old(self).memoire@,
            },
            !accepted ==> final(self).remaining() == old(self).remaining() && final(self).memoire@
                == old(self).memoire@,
    {
        self.settle();
        let depth = self.frames.len();
        if depth == 0 {
            return false;
        }
        let body: &'a Vec<Instruction> = self.frames[depth - 1].body;
        let next = self.frames[depth - 1].next;
        match &body[next] {
            Instruction::Lire => {
                match byte {
                    Some(value) => {
                        self.memoire.write(value as i32);
                    },
                    None => {},
                }
                self.advance();
                true
            },
            _ => false,
        }
    }
}

} // verus!
