//! Lexical filter: from source text to the opcode sequence.

use vstd::prelude::*;

verus! {

/// One of the eight command characters of the language.
#[derive(Clone, Copy, Debug, PartialEq, Eq, Structural)]
pub enum OperCharac {
    /// `+`
    Plus,
    /// `-`
    Moins,
    /// `>`
    ChevronDroit,
    /// `<`
    ChevronGauche,
    /// `.`
    Point,
    /// `,`
    Virgule,
    /// `[`
    CrochetOuvert,
    /// `]`
    CrochetFerme,
}

/// The opcode that a character stands for, if it is a command character.
/// The mapping is exact and case-sensitive; every other character is a comment.
pub open spec fn command(c: char) -> Option<OperCharac> {
    if c == '+' {
        Some(OperCharac::Plus)
    } else if c == '-' {
        Some(OperCharac::Moins)
    } else if c == '>' {
        Some(OperCharac::ChevronDroit)
    } else if c == '<' {
        Some(OperCharac::ChevronGauche)
    } else if c == '.' {
        Some(OperCharac::Point)
    } else if c == ',' {
        Some(OperCharac::Virgule)
    } else if c == '[' {
        Some(OperCharac::CrochetOuvert)
    } else if c == ']' {
        Some(OperCharac::CrochetFerme)
    } else {
        None
    }
}

/// Whether a character is one of the eight command characters.
pub open spec fn is_command(c: char) -> bool {
    command(c) is Some
}

/// The opcode sequence of a source text: the command characters, in source
/// order, each replaced by its opcode.
pub open spec fn lex(source: Seq<char>) -> Seq<OperCharac> {
    source.filter(|c: char| is_command(c)).map_values(|c: char| command(c)->0)
}

/// Appending one character to a text appends its opcode, if it has one.
pub proof fn lemma_lex_push(source: Seq<char>, c: char)
    ensures
        lex(source.push(c)) == match command(c) {
            Some(op) => lex(source).push(op),
            None => lex(source),
        },
{
    reveal(Seq::filter);
    assert(source.push(c).drop_last() =~= source);
}

/// Classifies one character.
pub fn char_to_op(c: char) -> (op: Option<OperCharac>)
    ensures
        op == command(c),
{
    match c {
        '+' => Some(OperCharac::Plus),
        '-' => Some(OperCharac::Moins),
        '>' => Some(OperCharac::ChevronDroit),
        '<' => Some(OperCharac::ChevronGauche),
        '.' => Some(OperCharac::Point),
        ',' => Some(OperCharac::Virgule),
        '[' => Some(OperCharac::CrochetOuvert),
        ']' => Some(OperCharac::CrochetFerme),
        _ => None,
    }
}

/// Filters a source text down to its opcodes. Total: no text is rejected.
pub fn convert_to_op(source: String) -> (operations: Vec<OperCharac>)
    ensures
        operations@ == lex(source@),
        operations@.len() == source@.filter(|c: char| is_command(c)).len(),
{
    let mut operations: Vec<OperCharac> = Vec::new();
    for symbol in it: source.as_str().chars()
        invariant
            operations@ == lex(source@.take(it.index() as int)),
            it.seq() == source@,
    {
        proof {
            lemma_lex_push(source@.take(it.index() as int), symbol);
            assert(source@.take(it.index() + 1) =~= source@.take(it.index() as int).push(symbol));
        }
        match char_to_op(symbol) {
            Some(op) => operations.push(op),
            None => (),
        }
    }
    proof {
        assert(source@.take(source@.len() as int) =~= source@);
    }
    operations
}

} // verus!
