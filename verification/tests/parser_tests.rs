use bf_interp::lexer::{convert_to_op, OperCharac};
use bf_interp::parser::{convert_to_instruction, Instruction, StructuralError};

fn parse_text(text: &str) -> Result<Vec<Instruction>, StructuralError> {
    convert_to_instruction(convert_to_op(text.to_string()))
}

#[test]
fn empty_sequence_parses_to_empty_program() {
    assert_eq!(convert_to_instruction(Vec::new()), Ok(Vec::new()));
}

#[test]
fn atomic_opcodes_map_one_for_one() {
    assert_eq!(
        parse_text("+-><.,"),
        Ok(vec![
            Instruction::Plus,
            Instruction::Moins,
            Instruction::Droite,
            Instruction::Gauche,
            Instruction::Afficher,
            Instruction::Lire,
        ])
    );
}

#[test]
fn lone_close_is_an_error_at_position_zero() {
    assert_eq!(
        convert_to_instruction(vec![OperCharac::CrochetFerme]),
        Err(StructuralError { position: 0 })
    );
}

#[test]
fn lone_open_parses_to_empty_program() {
    assert_eq!(convert_to_instruction(vec![OperCharac::CrochetOuvert]), Ok(Vec::new()));
}

#[test]
fn unclosed_loop_and_its_contents_vanish() {
    assert_eq!(parse_text("[+-.,"), Ok(Vec::new()));
    assert_eq!(parse_text("+>[-<"), Ok(vec![Instruction::Plus, Instruction::Droite]));
}

#[test]
fn unclosed_outer_loop_swallows_closed_inner_loop() {
    assert_eq!(parse_text("+[[-]>"), Ok(vec![Instruction::Plus]));
    assert_eq!(parse_text("[[]"), Ok(Vec::new()));
}

#[test]
fn close_after_atoms_reports_its_position() {
    assert_eq!(parse_text("+-]"), Err(StructuralError { position: 2 }));
}

#[test]
fn error_position_counts_opcodes_not_characters() {
    assert_eq!(parse_text("a + b ] c"), Err(StructuralError { position: 1 }));
}

#[test]
fn close_after_a_complete_loop_is_an_error() {
    assert_eq!(parse_text("[]]"), Err(StructuralError { position: 2 }));
    assert_eq!(parse_text("[+][-]]+["), Err(StructuralError { position: 6 }));
}

#[test]
fn close_before_open_is_an_error() {
    assert_eq!(parse_text("]["), Err(StructuralError { position: 0 }));
}

#[test]
fn error_wins_over_a_later_unclosed_loop() {
    assert_eq!(parse_text("+]["), Err(StructuralError { position: 1 }));
}

#[test]
fn unclosed_loop_hides_a_later_error() {
    // Everything after the `[` that is never closed is inside it.
    assert_eq!(parse_text("[[]+"), Ok(Vec::new()));
}

#[test]
fn empty_loop_parses_to_loop_without_body() {
    assert_eq!(parse_text("[]"), Ok(vec![Instruction::Boucle(Vec::new())]));
}

#[test]
fn simple_loop_owns_its_body() {
    assert_eq!(
        parse_text("+[-]."),
        Ok(vec![
            Instruction::Plus,
            Instruction::Boucle(vec![Instruction::Moins]),
            Instruction::Afficher,
        ])
    );
}

#[test]
fn consecutive_loops_stay_separate() {
    assert_eq!(
        parse_text("[+][-]"),
        Ok(vec![
            Instruction::Boucle(vec![Instruction::Plus]),
            Instruction::Boucle(vec![Instruction::Moins]),
        ])
    );
}

#[test]
fn nested_loops_nest_in_the_tree() {
    assert_eq!(
        parse_text("+[-[>[,]<].]-"),
        Ok(vec![
            Instruction::Plus,
            Instruction::Boucle(vec![
                Instruction::Moins,
                Instruction::Boucle(vec![
                    Instruction::Droite,
                    Instruction::Boucle(vec![Instruction::Lire]),
                    Instruction::Gauche,
                ]),
                Instruction::Afficher,
            ]),
            Instruction::Moins,
        ])
    );
}

#[test]
fn deep_nesting_is_parsed() {
    let depth = 200;
    let text = "[".repeat(depth) + "+" + &"]".repeat(depth);
    let mut expected = vec![Instruction::Plus];
    for _ in 0..depth {
        expected = vec![Instruction::Boucle(expected)];
    }
    assert_eq!(parse_text(&text), Ok(expected));
}

#[test]
fn loop_after_unclosed_inner_content_is_dropped_with_it() {
    assert_eq!(
        parse_text("[-]+[>[-]"),
        Ok(vec![Instruction::Boucle(vec![Instruction::Moins]), Instruction::Plus])
    );
}

#[test]
fn clone_of_a_tree_is_equal_to_it() {
    let program = parse_text("+[-[>[,]<].]-").unwrap();
    let copy: Vec<Instruction> = program.iter().map(|instruction| instruction.clone()).collect();
    assert_eq!(copy, program);
}

#[test]
fn opcodes_compare_by_variant() {
    assert_eq!(OperCharac::Plus, OperCharac::Plus);
    assert_ne!(OperCharac::CrochetOuvert, OperCharac::CrochetFerme);
}
