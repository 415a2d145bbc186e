use bf_interp::lexer::{char_to_op, convert_to_op, OperCharac};

#[test]
fn empty_text_gives_no_opcode() {
    assert_eq!(convert_to_op(String::new()), Vec::<OperCharac>::new());
}

#[test]
fn each_command_character_has_its_opcode() {
    assert_eq!(
        convert_to_op("+-><.,[]".to_string()),
        vec![
            OperCharac::Plus,
            OperCharac::Moins,
            OperCharac::ChevronDroit,
            OperCharac::ChevronGauche,
            OperCharac::Point,
            OperCharac::Virgule,
            OperCharac::CrochetOuvert,
            OperCharac::CrochetFerme,
        ]
    );
}

#[test]
fn single_characters_are_classified() {
    assert_eq!(char_to_op('+'), Some(OperCharac::Plus));
    assert_eq!(char_to_op('-'), Some(OperCharac::Moins));
    assert_eq!(char_to_op('>'), Some(OperCharac::ChevronDroit));
    assert_eq!(char_to_op('<'), Some(OperCharac::ChevronGauche));
    assert_eq!(char_to_op('.'), Some(OperCharac::Point));
    assert_eq!(char_to_op(','), Some(OperCharac::Virgule));
    assert_eq!(char_to_op('['), Some(OperCharac::CrochetOuvert));
    assert_eq!(char_to_op(']'), Some(OperCharac::CrochetFerme));
    assert_eq!(char_to_op(' '), None);
    assert_eq!(char_to_op('a'), None);
    assert_eq!(char_to_op('('), None);
    assert_eq!(char_to_op('\u{FF0B}'), None);
}

#[test]
fn comments_are_dropped_and_order_is_kept() {
    let ops = convert_to_op("add one: + then\n\tprint . (done) <back>".to_string());
    assert_eq!(
        ops,
        vec![
            OperCharac::Plus,
            OperCharac::Point,
            OperCharac::ChevronGauche,
            OperCharac::ChevronDroit,
        ]
    );
}

#[test]
fn text_without_commands_gives_no_opcode() {
    assert_eq!(
        convert_to_op("no commands here\n at all \u{e9}\u{1F600}".to_string()),
        Vec::<OperCharac>::new()
    );
}

#[test]
fn output_length_is_the_number_of_command_characters() {
    let text = "a[b]c+d-e>f<g.h,i 12345 []";
    let expected = text.chars().filter(|c| "+-><.,[]".contains(*c)).count();
    assert_eq!(expected, 10);
    assert_eq!(convert_to_op(text.to_string()).len(), expected);
}

#[test]
fn lookalike_characters_are_comments() {
    // full-width plus, en dash, guillemets, middle dot
    let ops = convert_to_op("\u{FF0B}\u{2013}\u{BB}\u{AB}\u{B7}".to_string());
    assert_eq!(ops, Vec::<OperCharac>::new());
}
