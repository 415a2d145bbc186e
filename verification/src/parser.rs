//! Structural parser: from the opcode sequence to the instruction tree.
//!
//! Atomic opcodes become leaves. A `[` and the `]` that closes it become one
//! loop node that owns everything between them. A `]` that closes nothing is
//! an error; a `[` that is never closed is dropped, with all that follows it.

use vstd::prelude::*;
use crate::balance::{first_unmatched_close, lemma_parse_error};
use crate::lexer::OperCharac;

verus! {

/// One instruction of a program; a loop owns its body.
#[derive(Debug, PartialEq, Eq)]
pub enum Instruction {
    /// Add one to the current cell.
    Plus,
    /// Subtract one from the current cell.
    Moins,
    /// Step left.
    Gauche,
    /// Step right.
    Droite,
    /// Emit the current cell as a character.
    Afficher,
    /// Store one input byte in the current cell.
    Lire,
    /// Repeat the body while the current cell is not zero.
    Boucle(Vec<Instruction>),
}

/// Mathematical model of an instruction: the same seven cases, with the
/// body of a loop as a sequence.
pub enum Node {
    /// Add one to the current cell.
    Plus,
    /// Subtract one from the current cell.
    Moins,
    /// Step left.
    Gauche,
    /// Step right.
    Droite,
    /// Emit the current cell as a character.
    Afficher,
    /// Store one input byte in the current cell.
    Lire,
    /// Repeat the body while the current cell is not zero.
    Boucle(Seq<Node>),
}

impl Instruction {
    /// The model of this instruction.
    pub open spec fn node(self) -> Node
        decreases self,
    {
        match self {
            Instruction::Plus => Node::Plus,
            Instruction::Moins => Node::Moins,
            Instruction::Gauche => Node::Gauche,
            Instruction::Droite => Node::Droite,
            Instruction::Afficher => Node::Afficher,
            Instruction::Lire => Node::Lire,
            Instruction::Boucle(body) => Node::Boucle(
                Seq::new(
                    body@.len(),
                    |k: int|
                        if 0 <= k < body@.len() {
                            body@[k].node()
                        } else {
                            Node::Plus
                        },
                ),
            ),
        }
    }
}

impl Clone for Instruction {
    /// A copy with the same model.
    fn clone(&self) -> (copy: Instruction)
        ensures
            copy.node() == self.node(),
        decreases self,
    {
        match self {
            Instruction::Plus => Instruction::Plus,
            Instruction::Moins => Instruction::Moins,
            Instruction::Gauche => Instruction::Gauche,
            Instruction::Droite => Instruction::Droite,
            Instruction::Afficher => Instruction::Afficher,
            Instruction::Lire => Instruction::Lire,
            Instruction::Boucle(body) => {
                let mut copies: Vec<Instruction> = Vec::new();
                let mut i: usize = 0;
                while i < body.len()
                    invariant
                        i <= body@.len(),
                        copies@.len() == i,
                        self == Instruction::Boucle(*body),
                        forall|k: int|
                            0 <= k < i ==> (#[trigger] copies@[k]).node() == body@[k].node(),
                    decreases body@.len() - i,
                {
                    proof {
                        vstd::std_specs::vec::axiom_vec_index_decreases(*body, i as int);
                        assert(self->Boucle_0 == *body);
                    }
                    copies.push(body[i].clone());
                    i += 1;
                }
                proof {
                    lemma_node_of_loop(*body);
                    lemma_node_of_loop(copies);
                    assert(forest(copies@) =~= forest(body@));
                }
                Instruction::Boucle(copies)
            },
        }
    }
}

/// The model of an instruction sequence, instruction by instruction.
pub open spec fn forest(program: Seq<Instruction>) -> Seq<Node> {
    Seq::new(program.len(), |k: int| program[k].node())
}

/// The model of a loop is the loop over the model of its body.
pub proof fn lemma_node_of_loop(body: Vec<Instruction>)
    ensures
        Instruction::Boucle(body).node() == Node::Boucle(forest(body@)),
{
    assert(Instruction::Boucle(body).node()->Boucle_0 =~= forest(body@));
}

/// A `]` met while no loop is open.
#[derive(Debug, Clone, Copy, PartialEq, Eq)]
pub struct StructuralError {
    /// Index of the offending `]` in the opcode sequence.
    pub position: usize,
}

/// The leaf that an atomic opcode stands for; brackets have none.
pub open spec fn atom(op: OperCharac) -> Option<Node> {
    match op {
        OperCharac::Plus => Some(Node::Plus),
        OperCharac::Moins => Some(Node::Moins),
        OperCharac::ChevronDroit => Some(Node::Droite),
        OperCharac::ChevronGauche => Some(Node::Gauche),
        OperCharac::Point => Some(Node::Afficher),
        OperCharac::Virgule => Some(Node::Lire),
        OperCharac::CrochetOuvert => None,
        OperCharac::CrochetFerme => None,
    }
}

/// Scanning `ops[from..to]` with `depth` loops open, the index of the `]`
/// that closes the outermost of them, if there is one.
pub open spec fn find_close(ops: Seq<OperCharac>, from: int, to: int, depth: nat) -> Option<int>
    decreases to - from,
{
    if from >= to {
        None
    } else if ops[from] == OperCharac::CrochetOuvert {
        find_close(ops, from + 1, to, depth + 1)
    } else if ops[from] == OperCharac::CrochetFerme {
        if depth <= 1 {
            Some(from)
        } else {
            find_close(ops, from + 1, to, (depth - 1) as nat)
        }
    } else {
        find_close(ops, from + 1, to, depth)
    }
}

/// The closing bracket that `find_close` reports lies in the scanned range.
pub proof fn lemma_find_close_in_range(ops: Seq<OperCharac>, from: int, to: int, depth: nat)
    ensures
        find_close(ops, from, to, depth) matches Some(close) ==> from <= close < to,
    decreases to - from,
{
    if from < to {
        if ops[from] == OperCharac::CrochetOuvert {
            lemma_find_close_in_range(ops, from + 1, to, depth + 1);
        } else if ops[from] == OperCharac::CrochetFerme {
            if depth > 1 {
                lemma_find_close_in_range(ops, from + 1, to, (depth - 1) as nat);
            }
        } else {
            lemma_find_close_in_range(ops, from + 1, to, depth);
        }
    }
}

/// `prefix` followed by what `rest` parsed to; an error in `rest` stands.
pub open spec fn join(prefix: Seq<Node>, rest: Result<Seq<Node>, int>) -> Result<Seq<Node>, int> {
    match rest {
        Ok(nodes) => Ok(prefix + nodes),
        Err(position) => Err(position),
    }
}

/// What `ops[lo..hi]` parses to: the instruction sequence, or the index in
/// `ops` of the first `]` that closes nothing.
///
/// An atomic opcode is its leaf, followed by what the rest parses to. A `[`
/// with its `]` is a loop over what stands between them, followed by what
/// stands after the `]`. A `[` without its `]` ends the sequence. A `]`
/// found where an instruction should start closes nothing.
pub open spec fn parse_range(ops: Seq<OperCharac>, lo: int, hi: int) -> Result<Seq<Node>, int>
    decreases hi - lo,
{
    if lo >= hi {
        Ok(Seq::empty())
    } else if ops[lo] == OperCharac::CrochetFerme {
        Err(lo)
    } else if ops[lo] == OperCharac::CrochetOuvert {
        match find_close(ops, lo + 1, hi, 1) {
            None => Ok(Seq::empty()),
            Some(close) => {
                proof {
                    lemma_find_close_in_range(ops, lo + 1, hi, 1);
                }
                match parse_range(ops, lo + 1, close) {
                    Ok(body) => join(seq![Node::Boucle(body)], parse_range(ops, close + 1, hi)),
                    Err(position) => Err(position),
                }
            },
        }
    } else {
        join(seq![atom(ops[lo])->0], parse_range(ops, lo + 1, hi))
    }
}

/// What an opcode sequence parses to.
pub open spec fn parse(ops: Seq<OperCharac>) -> Result<Seq<Node>, int> {
    parse_range(ops, 0, ops.len() as int)
}

/// Whether the outcome of the executable parser is the one the model gives.
pub open spec fn parsed_as(
    outcome: Result<Vec<Instruction>, StructuralError>,
    model: Result<Seq<Node>, int>,
) -> bool {
    match model {
        Ok(nodes) => outcome matches Ok(program) && forest(program@) == nodes,
        Err(position) => outcome matches Err(error) && error.position == position,
    }
}

proof fn lemma_join_push(prefix: Seq<Node>, node: Node, rest: Result<Seq<Node>, int>)
    ensures
        join(prefix, join(seq![node], rest)) == join(prefix.push(node), rest),
{
    if let Ok(nodes) = rest {
        assert(prefix + (seq![node] + nodes) =~= prefix.push(node) + nodes);
    }
}

proof fn lemma_forest_push(program: Seq<Instruction>, instruction: Instruction)
    ensures
        forest(program.push(instruction)) == forest(program).push(instruction.node()),
{
}

/// Parses `opcodes[lo..hi]` in one left-to-right scan, counting open loops
/// and descending into a loop's body when its closing bracket is reached.
fn parse_slice(opcodes: &Vec<OperCharac>, lo: usize, hi: usize) -> (outcome: Result<
    Vec<Instruction>,
    StructuralError,
>)
    requires
        lo <= hi <= opcodes@.len(),
    ensures
        parsed_as(outcome, parse_range(opcodes@, lo as int, hi as int)),
    decreases hi - lo,
{
    let mut program: Vec<Instruction> = Vec::new();
    let mut loop_stack: usize = 0;
    let mut loop_start: usize = lo;
    let mut i: usize = lo;
    let ghost ops = opcodes@;
    while i < hi
        invariant
            ops == opcodes@,
            lo <= i <= hi <= ops.len(),
            loop_stack == 0 ==> parse_range(ops, lo as int, hi as int) == join(
                forest(program@),
                parse_range(ops, i as int, hi as int),
            ),
            loop_stack > 0 ==> {
                &&& lo <= loop_start < i
                &&& loop_stack <= i - loop_start
                &&& ops[loop_start as int] == OperCharac::CrochetOuvert
                &&& parse_range(ops, lo as int, hi as int) == join(
                    forest(program@),
                    parse_range(ops, loop_start as int, hi as int),
                )
                &&& find_close(ops, loop_start + 1, hi as int, 1) == find_close(
                    ops,
                    i as int,
                    hi as int,
                    loop_stack as nat,
                )
            },
        decreases hi - i,
    {
        let op = opcodes[i];
        if loop_stack == 0 {
            let instr = match op {
                OperCharac::Plus => Some(Instruction::Plus),
                OperCharac::Moins => Some(Instruction::Moins),
                OperCharac::ChevronDroit => Some(Instruction::Droite),
                OperCharac::ChevronGauche => Some(Instruction::Gauche),
                OperCharac::Point => Some(Instruction::Afficher),
                OperCharac::Virgule => Some(Instruction::Lire),
                OperCharac::CrochetOuvert => {
                    loop_start = i;
                    loop_stack += 1;
                    None
                },
                OperCharac::CrochetFerme => {
                    return Err(StructuralError { position: i });
                },
            };
            match instr {
                Some(instr) => {
                    proof {
                        lemma_join_push(
                            forest(program@),
                            instr.node(),
                            parse_range(ops, i + 1, hi as int),
                        );
                        lemma_forest_push(program@, instr);
                    }
                    program.push(instr);
                },
                None => (),
            }
        } else {
            match op {
                OperCharac::CrochetOuvert => {
                    loop_stack += 1;
                },
                OperCharac::CrochetFerme => {
                    loop_stack -= 1;
                    if loop_stack == 0 {
                        match parse_slice(opcodes, loop_start + 1, i) {
                            Ok(body) => {
                                let instruction = Instruction::Boucle(body);
                                proof {
                                    lemma_node_of_loop(body);
                                    lemma_join_push(
                                        forest(program@),
                                        instruction.node(),
                                        parse_range(ops, i + 1, hi as int),
                                    );
                                    lemma_forest_push(program@, instruction);
                                }
                                program.push(instruction);
                            },
                            Err(error) => {
                                return Err(error);
                            },
                        }
                    }
                },
                _ => {},
            }
        }
        i += 1;
    }
    Ok(program)
}

/// Parses an opcode sequence into its instruction tree.
///
/// Fails exactly when a `]` is met while no loop is open, with the index of
/// that `]`. A `[` without its `]` is no error: it ends the program there.
pub fn convert_to_instruction(opcodes: Vec<OperCharac>) -> (outcome: Result<
    Vec<Instruction>,
    StructuralError,
>)
    ensures
        parsed_as(outcome, parse(opcodes@)),
        outcome matches Err(error) ==> first_unmatched_close(opcodes@, error.position as int),
        outcome is Ok ==> forall|position: int| !first_unmatched_close(opcodes@, position),
{
    let length = opcodes.len();
    proof {
        assert forall|position: int| parse(opcodes@) is Ok implies !first_unmatched_close(
            opcodes@,
            position,
        ) by {
            lemma_parse_error(opcodes@, position);
        }
        if let Err(position) = parse(opcodes@) {
            lemma_parse_error(opcodes@, position);
        }
    }
    parse_slice(&opcodes, 0, length)
}

} // verus!
